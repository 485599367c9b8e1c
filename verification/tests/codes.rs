use explode::codes::{CanonicalHuffman, DecodeResult};

// The codes of a table, one for each symbol that has one, as bits.
fn canonical_codes(lengths: &[u8]) -> Vec<(u8, Vec<bool>)> {
    let mut codes = Vec::new();
    let mut code: u64 = 0;
    let longest = lengths.iter().copied().max().unwrap_or(0);
    for len in 1..=longest {
        for (symbol, l) in lengths.iter().enumerate() {
            if *l == len {
                let bits = (0..len).rev().map(|i| (code >> i) & 1 == 1).collect();
                codes.push((symbol as u8, bits));
                code += 1;
            }
        }
        code <<= 1;
    }
    codes
}

#[test]
fn constructors() {
    // A = 10
    // B = 0
    // C = 110
    // D = 111
    let a = CanonicalHuffman::new_from_packed_lengths(&[2, 1, 19]).unwrap();
    let b = CanonicalHuffman::new_from_lengths(&[2, 1, 3, 3]).unwrap();
    let c = CanonicalHuffman::new(&[0, 1, 1, 2], &[1, 0, 2, 3]);
    assert_eq!(a, b);
    assert_eq!(*a.as_ref(), c);
    assert_eq!(*b.as_ref(), c);
}

#[test]
fn oversubscribed() {
    // A = 0
    // B = 10
    // C = 11
    // D = ???
    let a = CanonicalHuffman::new_from_lengths(&[1, 2, 2, 3]);
    assert_eq!(a, None);
}

#[test]
fn decode() {
    // A = 10
    // B = 0
    // C = 110
    // D = 111
    let a = CanonicalHuffman::new_from_lengths(&[2, 1, 3, 3]).unwrap();
    assert_eq!(a.decode(&[true, false]), Some(0));
    assert_eq!(a.decode(&[false]), Some(1));
    assert_eq!(a.decode(&[true, true, false]), Some(2));
    assert_eq!(a.decode(&[true, true, true]), Some(3));
}

#[test]
fn undersubscribed() {
    // A = 0
    // B = 100
    let a = CanonicalHuffman::new_from_lengths(&[1, 3]).unwrap();
    assert_eq!(a.decode(&[false]), Some(0));
    assert_eq!(a.decode(&[true, false, false]), Some(1));
    assert_eq!(a.decode(&[true, true, true]), None);
    assert_eq!(a.decode(&[true, true]), None);

    let mut d = a.decoder();
    assert_eq!(d.feed(true), DecodeResult::Incomplete);
    assert_eq!(d.feed(true), DecodeResult::Invalid);

    let mut d = a.decoder();
    assert_eq!(d.feed(true), DecodeResult::Incomplete);
    assert_eq!(d.feed(false), DecodeResult::Incomplete);
    assert_eq!(d.feed(true), DecodeResult::Invalid);
}

#[test]
fn empty() {
    // all codes are invalid in an empty table
    let a = CanonicalHuffman::new_from_lengths(&[]).unwrap();

    assert_eq!(a.decoder().feed(false), DecodeResult::Invalid);
    assert_eq!(a.decoder().feed(true), DecodeResult::Invalid);
}

#[test]
fn empty_tables_reject_every_bit() {
    for table in [
        CanonicalHuffman::new_from_lengths(&[0, 0, 0]).unwrap(),
        CanonicalHuffman::new(&[0, 0, 0], &[]),
        CanonicalHuffman::new(&[5], &[1, 2, 3]),
    ] {
        assert_eq!(table.decoder().feed(false), DecodeResult::Invalid);
        assert_eq!(table.decoder().feed(true), DecodeResult::Invalid);
        assert_eq!(table.decode(&[false, true, false]), None);
        assert_eq!(table.decode(&[]), None);
    }
}

#[test]
fn table_of_lengths_is_exact() {
    // lengths 0 stand for symbols without a code; they leave zeros behind
    // the symbols
    let a = CanonicalHuffman::new_from_lengths(&[3, 0, 1, 0, 3, 2]).unwrap();
    assert_eq!(a, CanonicalHuffman::new(&[2, 1, 1, 2], &[2, 5, 0, 4, 0, 0]));
    let b = CanonicalHuffman::new_from_lengths(&[0, 0]).unwrap();
    assert_eq!(b, CanonicalHuffman::new(&[2], &[]));
    let c = CanonicalHuffman::new_from_lengths(&[]).unwrap();
    assert_eq!(c, CanonicalHuffman::new(&[0], &[]));
}

#[test]
fn tables_are_equal_if_counts_and_symbols_are() {
    let a = CanonicalHuffman::new(&[0, 1, 1], &[7, 9]);
    assert!(a == CanonicalHuffman::new(&[0, 1, 1], &[7, 9]));
    assert!(a != CanonicalHuffman::new(&[0, 1, 1], &[7, 8]));
    assert!(a != CanonicalHuffman::new(&[0, 1, 1], &[7, 9, 0]));
    assert!(a != CanonicalHuffman::new(&[0, 2, 0], &[7, 9]));
    assert!(a != CanonicalHuffman::new(&[0, 1, 1, 0], &[7, 9]));
    assert!(a != CanonicalHuffman::new(&[1, 1, 1], &[7, 9]));
    assert_eq!(a.clone(), a);
}

#[test]
fn packed_lengths_are_runs() {
    // 0x21: three times a length of 1 would be oversubscribed
    assert_eq!(CanonicalHuffman::new_from_packed_lengths(&[0x21]), None);
    // 0x12: twice a length of 2; 0x01: once a length of 1
    let a = CanonicalHuffman::new_from_packed_lengths(&[0x12, 0x01]).unwrap();
    assert_eq!(a, CanonicalHuffman::new_from_lengths(&[2, 2, 1]).unwrap());
    assert_eq!(a, CanonicalHuffman::new(&[0, 1, 2], &[2, 0, 1]));
    let none = CanonicalHuffman::new_from_packed_lengths(&[]).unwrap();
    assert_eq!(none, CanonicalHuffman::new_from_lengths(&[]).unwrap());
}

#[test]
fn oversubscribed_at_any_length() {
    assert_eq!(CanonicalHuffman::new_from_lengths(&[1, 1, 1]), None);
    assert_eq!(CanonicalHuffman::new_from_lengths(&[2, 2, 2, 2, 9]), None);
    assert_eq!(CanonicalHuffman::new_from_lengths(&[1, 2, 3, 4, 4, 4]), None);
    assert!(CanonicalHuffman::new_from_lengths(&[1, 2, 3, 4, 4]).is_some());
    // codes that leave code space unused are accepted
    assert!(CanonicalHuffman::new_from_lengths(&[9]).is_some());
    assert!(CanonicalHuffman::new_from_lengths(&[200, 255]).is_some());
}

#[test]
fn every_code_decodes_to_its_symbol() {
    let lists: Vec<Vec<u8>> = vec![
        vec![2, 1, 3, 3],
        vec![1, 3],
        vec![2, 2, 2, 3, 3],
        vec![2, 2, 3, 3, 0, 4],
        vec![3, 3, 3, 3, 3, 3, 3, 3],
        vec![4, 0, 2, 7, 7, 1],
        vec![40, 40, 1],
    ];
    for lengths in lists {
        let table = CanonicalHuffman::new_from_lengths(&lengths).unwrap();
        for (symbol, bits) in canonical_codes(&lengths) {
            assert_eq!(table.decode(&bits), Some(symbol));
            // no code begins another
            assert_eq!(table.decode(&bits[..bits.len() - 1]), None);
            let mut d = table.decoder();
            for bit in &bits[..bits.len() - 1] {
                assert_eq!(d.feed(*bit), DecodeResult::Incomplete);
            }
            assert_eq!(d.feed(bits[bits.len() - 1]), DecodeResult::Symbol(symbol));
        }
    }
}

#[test]
fn codes_longer_than_a_machine_word() {
    // the code of symbol 1 is 200 zeros; that of symbol 0 is 199 zeros, a
    // one, and 55 zeros
    let table = CanonicalHuffman::new_from_lengths(&[255, 200]).unwrap();
    let short = vec![false; 200];
    let mut long = vec![false; 255];
    long[199] = true;
    assert_eq!(table.decode(&short), Some(1));
    assert_eq!(table.decode(&long), Some(0));
    assert_eq!(table.decode(&long[..254]), None);
    long[254] = true;
    assert_eq!(table.decode(&long), None);
    let mut d = table.decoder();
    for _ in 0..199 {
        assert_eq!(d.feed(false), DecodeResult::Incomplete);
    }
    assert_eq!(d.feed(true), DecodeResult::Incomplete);
    assert_eq!(d.feed(true), DecodeResult::Invalid);
}

#[test]
fn codes_that_share_a_length_beyond_the_first_prefix() {
    // 00, 01, 10, 110, 111: two bit strings of length 1 begin codes
    let table = CanonicalHuffman::new_from_lengths(&[2, 2, 2, 3, 3]).unwrap();
    assert_eq!(table.decode(&[true, false]), Some(2));
    assert_eq!(table.decode(&[true, true, false]), Some(3));
    assert_eq!(table.decode(&[true, true, true]), Some(4));
    // 00, 01, 100, 101: 11 begins no code
    let table = CanonicalHuffman::new_from_lengths(&[2, 2, 3, 3]).unwrap();
    assert_eq!(table.decode(&[true, false, true]), Some(3));
    let mut d = table.decoder();
    assert_eq!(d.feed(true), DecodeResult::Incomplete);
    assert_eq!(d.feed(true), DecodeResult::Invalid);
}
