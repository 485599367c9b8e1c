use explode::codes::CanonicalHuffman;
use explode::tables;

#[test]
fn literal() {
    let zlib_literal = CanonicalHuffman::new_from_packed_lengths(&[
        11, 124, 8, 7, 28, 7, 188, 13, 76, 4, 10, 8, 12, 10, 12, 10, 8, 23, 8, 9, 7, 6, 7, 8, 7,
        6, 55, 8, 23, 24, 12, 11, 7, 9, 11, 12, 6, 7, 22, 5, 7, 24, 6, 11, 9, 6, 7, 22, 7, 11, 38,
        7, 9, 8, 25, 11, 8, 11, 9, 12, 8, 12, 5, 38, 5, 38, 5, 11, 7, 5, 6, 21, 6, 10, 53, 8, 7,
        24, 10, 27, 44, 253, 253, 253, 252, 252, 252, 13, 12, 45, 12, 45, 12, 61, 12, 45, 44, 173,
    ])
    .unwrap();
    assert_eq!(*zlib_literal.as_ref(), tables::literal());
}

#[test]
fn length() {
    let zlib_length =
        CanonicalHuffman::new_from_packed_lengths(&[2, 35, 36, 53, 38, 23]).unwrap();
    assert_eq!(*zlib_length.as_ref(), tables::length());
}

#[test]
fn distance() {
    let zlib_distance =
        CanonicalHuffman::new_from_packed_lengths(&[2, 20, 53, 230, 247, 151, 248]).unwrap();
    assert_eq!(*zlib_distance.as_ref(), tables::distance());
}

#[test]
fn format_tables_decode_known_codes() {
    // the shortest length code, 00, is the length symbol 0; the longest,
    // seven ones, ends a stream
    assert_eq!(tables::length().decode(&[false, false]), Some(0));
    assert_eq!(tables::length().decode(&[true; 7]), Some(15));
    assert_eq!(tables::distance().decode(&[false, false]), Some(0));
    assert_eq!(tables::distance().decode(&[true; 8]), Some(63));
    // the shortest literal code is that of the blank
    assert_eq!(tables::literal().decode(&[false, false, false, false]), Some(b' '));
    assert_eq!(tables::literal().decode(&[true; 13]), Some(0xff));
}
