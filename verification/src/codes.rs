//! Canonical Huffman tables and their bit-at-a-time decoder.

use crate::lengths::{
    counts_of, is_table_of, lemma_all_unused, lemma_left_stays_large, lemma_longest_covers,
    lemma_occurrences_grow, lemma_offset_is_shorter, lemma_shorter_step, lemma_slot_differs,
    lemma_slot_range, longest, occurrences, oversubscribed, representable, slot, unpack,
};
use vstd::prelude::*;

verus! {

/// What a canonical Huffman table says: how many symbols have a code of each
/// length, and the symbols ordered by code length.
pub struct Code {
    pub counts: Seq<u8>,
    pub symbols: Seq<u8>,
}

/// What a decoder reports after each bit.
#[derive(Clone, Copy, Debug, PartialEq, Eq, Structural)]
pub enum DecodeResult {
    /// The bits so far begin a code; another bit is needed.
    Incomplete,
    /// The bits so far neither are a code nor begin one.
    Invalid,
    /// The bits so far are the code of this symbol.
    Symbol(u8),
}

/// A canonical Huffman table. Two tables are equal if they say the same:
/// if their counts are equal and their symbols are.
#[derive(Clone, Debug, Eq)]
pub struct CanonicalHuffman {
    max_len: usize,
    counts: Vec<u8>,
    symbols: Vec<u8>,
    // for each length, how many bit strings of that length begin a longer code
    prefixes: Vec<u8>,
}

/// Where a decoder stands after the bits it was fed: how many there were,
/// where the codes of the next length begin in `symbols`, and which of the
/// bit strings that begin a longer code the bits are.
#[derive(Clone, Copy, Debug)]
pub struct Cursor {
    code: u32,
    bits: usize,
    index: usize,
}

/// A decoder for one symbol of a table.
#[derive(Clone, Debug)]
pub struct Decoder<'a> {
    codebook: &'a CanonicalHuffman,
    cursor: Cursor,
}

/// The number of symbols whose code is shorter than `len` bits, which is
/// also the place in `symbols` of the first symbol of length `len`.
pub open spec fn offset(counts: Seq<u8>, len: int) -> int
    decreases len,
{
    if len <= 1 {
        0
    } else {
        offset(counts, len - 1) + counts[len - 1]
    }
}

/// The number of bit strings of length `len` that no code of length `len`
/// or less begins: the code space still open after that length. A negative
/// value means that more codes were asked for than there are bit strings.
pub open spec fn left(counts: Seq<u8>, len: int) -> int
    decreases len,
{
    if len <= 0 {
        1
    } else {
        2 * left(counts, len - 1) - counts[len]
    }
}

/// The number of bit strings of length `len` that begin a longer code.
pub open spec fn inner(counts: Seq<u8>, len: int) -> int
    decreases counts.len() - len,
{
    if len + 1 >= counts.len() {
        0
    } else {
        (counts[len + 1] + inner(counts, len + 1) + 1) / 2
    }
}

/// Whether the codes use up the code space: no length is oversubscribed, and
/// after the longest nothing is left.
pub open spec fn complete(counts: Seq<u8>) -> bool {
    &&& counts.len() >= 2
    &&& forall|len: int| 1 <= len < counts.len() ==> #[trigger] left(counts, len) >= 0
    &&& left(counts, counts.len() - 1) == 0
}

/// The number that `bits` spell, the first bit being the highest.
pub open spec fn value(bits: Seq<bool>) -> int
    decreases bits.len(),
{
    if bits.len() == 0 {
        0
    } else {
        2 * value(bits.drop_last()) + if bits.last() {
            1int
        } else {
            0int
        }
    }
}

/// The number that the first code of length `len` spells. The codes of one
/// length are consecutive numbers, in the order of `symbols`, and the first
/// code of the next length is twice the number that follows them.
pub open spec fn first_code(counts: Seq<u8>, len: int) -> int
    decreases len,
{
    if len <= 1 {
        0
    } else {
        2 * (first_code(counts, len - 1) + counts[len - 1])
    }
}

/// What the bit string `bits` is in the table `code`: the code of a symbol,
/// the beginning of a longer code, or neither. Nothing is decided before the
/// first bit.
pub open spec fn classify(code: Code, bits: Seq<bool>) -> DecodeResult {
    let len = bits.len() as int;
    let ahead = value(bits) - first_code(code.counts, len);
    if len == 0 {
        DecodeResult::Incomplete
    } else if len >= code.counts.len() || ahead < 0 {
        DecodeResult::Invalid
    } else if ahead < code.counts[len] {
        DecodeResult::Symbol(code.symbols[offset(code.counts, len) + ahead])
    } else if ahead - code.counts[len] < inner(code.counts, len) {
        DecodeResult::Incomplete
    } else {
        DecodeResult::Invalid
    }
}

/// What decoding `bits` gives, the first `done` bits having begun a code:
/// the symbol of the first code that `bits` begins with, or `None` where the
/// bits end first or cannot begin a code.
pub open spec fn decode_from(code: Code, bits: Seq<bool>, done: int) -> Option<u8>
    decreases bits.len() - done,
{
    if done >= bits.len() {
        None
    } else {
        match classify(code, bits.take(done + 1)) {
            DecodeResult::Incomplete => decode_from(code, bits, done + 1),
            DecodeResult::Invalid => None,
            DecodeResult::Symbol(symbol) => Some(symbol),
        }
    }
}

impl Code {
    /// Every symbol that a count stands for is there to be read.
    pub open spec fn wf(self) -> bool {
        &&& 1 <= self.counts.len() <= usize::MAX
        &&& offset(self.counts, self.counts.len() as int) <= self.symbols.len() <= usize::MAX
    }

    /// No symbol has a code.
    pub open spec fn is_empty(self) -> bool {
        offset(self.counts, self.counts.len() as int) == 0
    }
}

impl View for CanonicalHuffman {
    type V = Code;

    closed spec fn view(&self) -> Code {
        Code { counts: self.counts@, symbols: self.symbols@ }
    }
}

/// Whether two lists of bytes are equal.
fn same_bytes(one: &Vec<u8>, other: &Vec<u8>) -> (same: bool)
    ensures
        same == (one@ == other@),
{
    if one.len() != other.len() {
        return false;
    }
    let mut at: usize = 0;
    while at < one.len()
        invariant
            one@.len() == other@.len(),
            at <= one@.len(),
            forall|i: int| 0 <= i < at ==> one@[i] == other@[i],
        decreases one@.len() - at,
    {
        if one[at] != other[at] {
            return false;
        }
        at += 1;
    }
    assert(one@ =~= other@);
    true
}

impl PartialEq for CanonicalHuffman {
    fn eq(&self, other: &Self) -> (same: bool) {
        same_bytes(&self.counts, &other.counts) && same_bytes(&self.symbols, &other.symbols)
    }
}

impl vstd::std_specs::cmp::PartialEqSpecImpl for CanonicalHuffman {
    open spec fn obeys_eq_spec() -> bool {
        true
    }

    open spec fn eq_spec(&self, other: &Self) -> bool {
        self@ == other@
    }
}

impl CanonicalHuffman {
    /// The table holds one more than its longest code length, and its
    /// contents are well-formed.
    pub closed spec fn wf(&self) -> bool {
        &&& self.max_len == self.counts@.len()
        &&& self.prefixes@.len() == self.counts@.len()
        &&& forall|len: int|
            0 <= len < self.counts@.len() ==> #[trigger] self.prefixes@[len] == inner(
                self.counts@,
                len,
            )
        &&& self@.wf()
    }

    /// What the table says is well-formed.
    pub proof fn lemma_wf(&self)
        requires
            self.wf(),
        ensures
            self@.wf(),
    {
    }

    /// For each length, the number of bit strings of that length that begin
    /// a longer code.
    fn count_prefixes(counts: &Vec<u8>) -> (prefixes: Vec<u8>)
        requires
            counts@.len() >= 1,
        ensures
            prefixes@.len() == counts@.len(),
            forall|len: int|
                0 <= len < counts@.len() ==> #[trigger] prefixes@[len] == inner(counts@, len),
    {
        let n = counts.len();
        let mut prefixes: Vec<u8> = vec![0u8; n];
        let mut len: usize = n - 1;
        while len > 0
            invariant
                len < n,
                n == counts@.len(),
                prefixes@.len() == n,
                forall|l: int| len <= l < n ==> #[trigger] prefixes@[l] == inner(counts@, l),
            decreases len,
        {
            proof {
                lemma_inner_range(counts@, len as int);
                lemma_inner_range(counts@, len - 1);
            }
            let sum: u16 = counts[len] as u16 + prefixes[len] as u16 + 1;
            prefixes[len - 1] = (sum / 2) as u8;
            len -= 1;
        }
        prefixes
    }

    /// Makes a table of the counts for each code length, `counts[0]` being
    /// of no account, and of the symbols in the order of their codes.
    pub fn new(counts: &[u8], symbols: &[u8]) -> (table: Self)
        requires
            (Code { counts: counts@, symbols: symbols@ }).wf(),
        ensures
            table.wf(),
            table@ == (Code { counts: counts@, symbols: symbols@ }),
    {
        let counts = vstd::slice::slice_to_vec(counts);
        let symbols = vstd::slice::slice_to_vec(symbols);
        let prefixes = Self::count_prefixes(&counts);
        CanonicalHuffman { max_len: counts.len(), counts, symbols, prefixes }
    }

    /// Builds the table for a packed list of code lengths, in which each byte
    /// stands for a run of equal lengths. Returns `None` if the lengths are
    /// oversubscribed.
    pub fn new_from_packed_lengths(packed: &[u8]) -> (table: Option<Self>)
        requires
            representable(unpack(packed@, packed@.len() as int)),
        ensures
            table is None <==> oversubscribed(unpack(packed@, packed@.len() as int)),
            table matches Some(t) ==> t.wf() && is_table_of(
                t@,
                unpack(packed@, packed@.len() as int),
            ),
    {
        let mut lengths: Vec<u8> = Vec::new();
        let mut at: usize = 0;
        while at < packed.len()
            invariant
                at <= packed@.len(),
                lengths@ == unpack(packed@, at as int),
            decreases packed@.len() - at,
        {
            let byte = packed[at];
            let len = byte & 0b1111;
            let repeat = byte >> 4;
            assert(byte & 0b1111 == byte % 16 && byte >> 4 == byte / 16) by (bit_vector);
            let mut run: u8 = 0;
            while run <= repeat
                invariant
                    run <= repeat + 1,
                    repeat < 16,
                    lengths@ == unpack(packed@, at as int) + Seq::new(run as nat, |i: int| len),
                decreases repeat + 1 - run,
            {
                lengths.push(len);
                run += 1;
            }
            at += 1;
        }
        Self::new_from_lengths(lengths.as_slice())
    }

    /// Builds the table for a list of code lengths, in which entry `s` is the
    /// length of the code of symbol `s`, and 0 means that `s` has no code.
    /// Returns `None` if the lengths are oversubscribed.
    pub fn new_from_lengths(lengths: &[u8]) -> (table: Option<Self>)
        requires
            representable(lengths@),
        ensures
            table is None <==> oversubscribed(lengths@),
            table matches Some(t) ==> t.wf() && is_table_of(t@, lengths@),
    {
        let n = lengths.len();
        let ghost all = lengths@;
        let mut top: u8 = 0;
        let mut at: usize = 0;
        while at < n
            invariant
                n == all.len(),
                all == lengths@,
                at <= n,
                top == longest(all, at as int),
            decreases n - at,
        {
            if lengths[at] > top {
                top = lengths[at];
            }
            at += 1;
        }
        let max_len: usize = top as usize + 1;
        let mut counts: Vec<u8> = vec![0u8; max_len];
        at = 0;
        while at < n
            invariant
                n == all.len(),
                all == lengths@,
                representable(all),
                at <= n,
                max_len == longest(all, n as int) + 1,
                counts@.len() == max_len,
                forall|len: int|
                    0 <= len < max_len ==> #[trigger] counts@[len] == occurrences(
                        all,
                        len,
                        at as int,
                    ),
            decreases n - at,
        {
            let len = lengths[at] as usize;
            proof {
                lemma_longest_covers(all, n as int, at as int);
                lemma_occurrences_grow(all, len as int, at as int + 1, n as int);
                assert(occurrences(all, len as int, n as int) <= 255);
            }
            counts[len] = counts[len] + 1;
            at += 1;
        }
        proof {
            assert forall|len: int| 0 <= len < max_len implies #[trigger] counts@[len]
                == counts_of(all)[len] by {
                lemma_occurrences_grow(all, len, 0, n as int);
                assert(occurrences(all, len, n as int) <= 255);
            }
            assert(counts@ =~= counts_of(all));
            lemma_all_unused(all, n as int);
            lemma_occurrences_grow(all, 0, 0, n as int);
        }
        if counts[0] as usize == n {
            let prefixes = Self::count_prefixes(&counts);
            return Some(CanonicalHuffman { max_len, counts, symbols: Vec::new(), prefixes });
        }
        let mut open: usize = 1;
        let mut len: usize = 1;
        while len < max_len
            invariant
                1 <= len <= max_len,
                counts@ == counts_of(lengths@),
                counts@.len() == max_len,
                forall|l: int| 1 <= l < len ==> #[trigger] left(counts@, l) >= 0,
                left(counts@, len - 1) >= 0,
                open == if left(counts@, len - 1) < 256 {
                    left(counts@, len - 1)
                } else {
                    256
                },
            decreases max_len - len,
        {
            if open < 256 {
                if 2 * open < counts[len] as usize {
                    assert(left(counts_of(lengths@), len as int) < 0);
                    return None;
                }
                open = 2 * open - counts[len] as usize;
                if open > 256 {
                    open = 256;
                }
            } else {
                proof {
                    lemma_left_stays_large(counts@, len - 1, len as int);
                }
            }
            len += 1;
        }
        let mut offsets: Vec<usize> = vec![0usize; max_len];
        len = 1;
        while len + 1 < max_len
            invariant
                1 <= len < max_len <= 256,
                n == all.len(),
                all == lengths@,
                representable(all),
                counts@ == counts_of(all),
                counts@.len() == max_len,
                offsets@.len() == max_len,
                forall|l: int| 1 <= l <= len ==> #[trigger] offsets@[l] == offset(counts@, l),
            decreases max_len - len,
        {
            proof {
                lemma_offset_is_shorter(all, len + 1);
                lemma_shorter_step(all, len + 1, n as int);
                lemma_occurrences_grow(all, 0, 0, n as int);
                assert(offsets@[len as int] == offset(counts@, len as int));
            }
            offsets[len + 1] = offsets[len] + counts[len] as usize;
            len += 1;
        }
        let mut symbols: Vec<u8> = vec![0u8; n];
        at = 0;
        proof {
            lemma_offset_nonnegative(counts@, max_len as int);
        }
        while at < n
            invariant
                n == all.len(),
                all == lengths@,
                representable(all),
                at <= n,
                counts@ == counts_of(all),
                counts@.len() == max_len,
                offsets@.len() == max_len,
                symbols@.len() == n,
                forall|l: int|
                    1 <= l < max_len ==> #[trigger] offsets@[l] == offset(counts@, l)
                        + occurrences(all, l, at as int),
                forall|sym: int|
                    0 <= sym < at && all[sym] > 0 ==> #[trigger] symbols@[slot(all, sym)] == sym,
                forall|to: int|
                    offset(counts@, max_len as int) <= to < n ==> #[trigger] symbols@[to] == 0,
            decreases n - at,
        {
            let len = lengths[at] as usize;
            if len > 0 {
                proof {
                    lemma_longest_covers(all, n as int, at as int);
                    lemma_slot_range(all, at as int);
                    assert forall|sym: int| 0 <= sym < at && all[sym] > 0 implies 0 <= #[trigger] slot(
                        all,
                        sym,
                    ) < n && slot(all, sym) != slot(all, at as int) by {
                        lemma_slot_differs(all, sym, at as int);
                        lemma_slot_range(all, sym);
                    }
                    assert(offsets@[len as int] == slot(all, at as int));
                }
                let to = offsets[len];
                symbols[to] = at as u8;
                offsets[len] = to + 1;
            }
            at += 1;
        }
        let prefixes = Self::count_prefixes(&counts);
        let table = CanonicalHuffman { max_len, counts, symbols, prefixes };
        proof {
            lemma_offset_is_shorter(all, max_len as int);
            lemma_shorter_step(all, max_len as int, n as int);
            lemma_occurrences_grow(all, 0, 0, n as int);
            assert(table@.wf());
            assert(table@.counts[0] != n);
            assert(table@.counts == counts_of(all));
        }
        Some(table)
    }

    /// The table itself, borrowed.
    pub fn as_ref(&self) -> (table: &Self)
        ensures
            table == self,
    {
        self
    }

    /// A decoder that has read no bit yet.
    pub fn decoder(&self) -> (decoder: Decoder<'_>)
        requires
            self.wf(),
        ensures
            decoder.wf(),
            decoder.table() == self@,
            decoder.cursor() == Cursor::spec_new(),
            decoder.at(Seq::empty()),
    {
        Decoder { codebook: self, cursor: Cursor::new() }
    }

    /// Decodes one symbol from the beginning of `bits`. Returns `None` if
    /// the bits end before a code does, or cannot begin a code.
    pub fn decode(&self, bits: &[bool]) -> (symbol: Option<u8>)
        requires
            self.wf(),
        ensures
            symbol == decode_from(self@, bits@, 0),
    {
        let mut cursor = Cursor::new();
        let mut done: usize = 0;
        while done < bits.len()
            invariant
                self.wf(),
                done <= bits@.len(),
                cursor.at(self@, bits@.take(done as int)),
                decode_from(self@, bits@, 0) == decode_from(self@, bits@, done as int),
            decreases bits@.len() - done,
        {
            proof {
                cursor.lemma_step_classifies(self@, bits@.take(done as int), bits@[done as int]);
                assert(bits@.take(done as int).push(bits@[done as int]) =~= bits@.take(
                    done + 1,
                ));
            }
            match cursor.feed(self, bits[done]) {
                DecodeResult::Incomplete => {},
                DecodeResult::Invalid => {
                    return None;
                },
                DecodeResult::Symbol(symbol) => {
                    return Some(symbol);
                },
            }
            done += 1;
        }
        None
    }
}

impl Cursor {
    /// The cursor of a decoder that has read no bit yet.
    pub closed spec fn spec_new() -> Cursor {
        Cursor { code: 0, bits: 0, index: 0 }
    }

    /// The cursor points into the table `code`.
    pub closed spec fn wf(&self, code: Code) -> bool {
        &&& self.bits < code.counts.len()
        &&& self.index == offset(code.counts, self.bits + 1)
        &&& if self.bits == 0 {
            self.code == 0
        } else {
            self.code < inner(code.counts, self.bits as int)
        }
    }

    /// The cursor is where the bits `path`, which begin a code of the table
    /// `code`, lead.
    pub closed spec fn at(&self, code: Code, path: Seq<bool>) -> bool {
        &&& self.wf(code)
        &&& self.bits == path.len()
        &&& path.len() > 0 ==> self.code == value(path) - first_code(
            code.counts,
            path.len() as int,
        ) - code.counts[path.len() as int]
    }

    /// Where one more bit leads, and what the decoder reports of it. The
    /// cursor moves only where the bits begin a longer code.
    pub closed spec fn step(self, code: Code, bit: bool) -> (Cursor, DecodeResult) {
        let len = self.bits + 1;
        let ahead = 2 * self.code + if bit {
            1int
        } else {
            0int
        };
        if len >= code.counts.len() {
            (self, DecodeResult::Invalid)
        } else if ahead < code.counts[len] {
            (self, DecodeResult::Symbol(code.symbols[self.index + ahead]))
        } else if ahead - code.counts[len] < inner(code.counts, len) {
            (
                Cursor {
                    code: (ahead - code.counts[len]) as u32,
                    bits: len as usize,
                    index: (self.index + code.counts[len]) as usize,
                },
                DecodeResult::Incomplete,
            )
        } else {
            (self, DecodeResult::Invalid)
        }
    }

    /// In a complete table every bit string is a code or begins one.
    pub proof fn lemma_complete_step(self, code: Code, bit: bool)
        requires
            code.wf(),
            complete(code.counts),
            self.wf(code),
        ensures
            !(self.step(code, bit).1 is Invalid),
    {
        lemma_complete_inner(code.counts, self.bits as int);
        if self.bits + 1 < code.counts.len() {
            lemma_complete_inner(code.counts, self.bits + 1);
        }
    }

    /// In a table without symbols a decoder reports every bit as invalid.
    pub proof fn lemma_empty_step(self, code: Code, bit: bool)
        requires
            code.is_empty(),
            self.wf(code),
        ensures
            self.step(code, bit).1 is Invalid,
    {
        if self.bits + 1 < code.counts.len() {
            lemma_empty_inner(code, self.bits + 1);
        }
    }

    /// A symbol that a step reports is one of the table.
    pub proof fn lemma_step_symbol(self, code: Code, bit: bool)
        requires
            code.wf(),
            self.wf(code),
        ensures
            self.step(code, bit).1 matches DecodeResult::Symbol(symbol) ==> exists|at: int|
                0 <= at < code.symbols.len() && code.symbols[at] == symbol,
    {
        let len = self.bits + 1;
        if len < code.counts.len() {
            lemma_offset_grows(code.counts, len + 1, code.counts.len() as int);
            lemma_offset_nonnegative(code.counts, len);
            if let DecodeResult::Symbol(symbol) = self.step(code, bit).1 {
                let at = self.index + 2 * self.code + if bit {
                    1int
                } else {
                    0int
                };
                assert(code.symbols[at] == symbol);
            }
        }
    }

    /// A step leaves the cursor in the table.
    pub proof fn lemma_step_wf(self, code: Code, bit: bool)
        requires
            code.wf(),
            self.wf(code),
        ensures
            self.step(code, bit).0.wf(code),
            !(self.step(code, bit).1 is Incomplete) ==> self.step(code, bit).0 == self,
    {
        let len = self.bits + 1;
        if len < code.counts.len() {
            lemma_inner_range(code.counts, len);
            lemma_inner_range(code.counts, len - 1);
            lemma_offset_grows(code.counts, len + 1, code.counts.len() as int);
        }
    }

    /// A cursor that has read no bit is in the table, at its beginning.
    pub proof fn lemma_new_at(code: Code)
        requires
            code.wf(),
        ensures
            Cursor::spec_new().at(code, Seq::empty()),
            Cursor::spec_new().wf(code),
    {
    }

    /// A step reports what the bits read so far are in the table, and leads
    /// to where they lead.
    pub proof fn lemma_step_classifies(self, code: Code, path: Seq<bool>, bit: bool)
        requires
            code.wf(),
            self.at(code, path),
        ensures
            self.step(code, bit).1 == classify(code, path.push(bit)),
            self.step(code, bit).1 is Incomplete ==> self.step(code, bit).0.at(
                code,
                path.push(bit),
            ),
            !(self.step(code, bit).1 is Incomplete) ==> self.step(code, bit).0 == self,
    {
        lemma_value_push(path, bit);
        let len = path.len() as int + 1;
        if len < code.counts.len() {
            lemma_inner_range(code.counts, len);
            lemma_inner_range(code.counts, len - 1);
            lemma_offset_grows(code.counts, len + 1, code.counts.len() as int);
        }
    }

    /// A cursor that has read no bit yet.
    pub fn new() -> (cursor: Self)
        ensures
            cursor == Cursor::spec_new(),
    {
        Cursor { code: 0, bits: 0, index: 0 }
    }

    /// Reads one bit of a code of `table`, and reports what the bits read
    /// so far are in the table. The cursor moves on only where they begin
    /// a longer code.
    pub fn feed(&mut self, table: &CanonicalHuffman, bit: bool) -> (result: DecodeResult)
        requires
            table.wf(),
            old(self).wf(table@),
        ensures
            final(self).wf(table@),
            (*final(self), result) == old(self).step(table@, bit),
            forall|path: Seq<bool>| #[trigger]
                old(self).at(table@, path) ==> result == classify(table@, path.push(bit)) && (
                result is Incomplete ==> final(self).at(table@, path.push(bit))),
    {
        proof {
            assert forall|path: Seq<bool>| #[trigger] self.at(table@, path) implies self.step(
                table@,
                bit,
            ).1 == classify(table@, path.push(bit)) && (self.step(table@, bit).1 is Incomplete
                ==> self.step(table@, bit).0.at(table@, path.push(bit))) by {
                self.lemma_step_classifies(table@, path, bit);
            }
        }
        let len = self.bits + 1;
        if len >= table.max_len {
            return DecodeResult::Invalid;
        }
        proof {
            lemma_inner_range(table@.counts, self.bits as int);
        }
        let ahead: u32 = 2 * self.code + if bit {
            1
        } else {
            0
        };
        let count = table.counts[len] as u32;
        proof {
            lemma_offset_grows(table@.counts, len + 1, table@.counts.len() as int);
            lemma_inner_range(table@.counts, len as int);
            lemma_inner_range(table@.counts, len - 1);
            assert(offset(table@.counts, len + 1) == self.index + count);
        }
        if ahead < count {
            DecodeResult::Symbol(table.symbols[self.index + ahead as usize])
        } else if ahead - count < table.prefixes[len] as u32 {
            self.code = ahead - count;
            self.bits = len;
            self.index = self.index + count as usize;
            DecodeResult::Incomplete
        } else {
            DecodeResult::Invalid
        }
    }
}

impl<'a> Decoder<'a> {
    /// The table is well-formed and the decoder points into it.
    pub closed spec fn wf(&self) -> bool {
        &&& self.codebook.wf()
        &&& self.cursor.wf(self.codebook@)
    }

    /// The table that the decoder reads codes of.
    pub closed spec fn table(&self) -> Code {
        self.codebook@
    }

    /// Where the decoder stands.
    pub closed spec fn cursor(&self) -> Cursor {
        self.cursor
    }

    /// The decoder has read the bits `path`, which begin a code.
    pub closed spec fn at(&self, path: Seq<bool>) -> bool {
        self.cursor.at(self.codebook@, path)
    }

    /// Reads one bit, and reports what the bits read so far are in the
    /// table. The decoder moves on only where they begin a longer code.
    pub fn feed(&mut self, bit: bool) -> (result: DecodeResult)
        requires
            old(self).wf(),
        ensures
            final(self).wf(),
            final(self).table() == old(self).table(),
            (final(self).cursor(), result) == old(self).cursor().step(old(self).table(), bit),
            forall|path: Seq<bool>| #[trigger]
                old(self).at(path) ==> result == classify(old(self).table(), path.push(bit)) && (
                result is Incomplete ==> final(self).at(path.push(bit))),
    {
        self.cursor.feed(self.codebook, bit)
    }
}

/// No place in `symbols` lies before the first.
pub proof fn lemma_offset_nonnegative(counts: Seq<u8>, len: int)
    ensures
        0 <= offset(counts, len),
    decreases len,
{
    if len > 1 {
        lemma_offset_nonnegative(counts, len - 1);
    }
}

/// The symbols of longer codes stand behind those of shorter ones.
pub proof fn lemma_offset_grows(counts: Seq<u8>, from: int, upto: int)
    requires
        from <= upto,
    ensures
        0 <= offset(counts, from) <= offset(counts, upto),
    decreases upto - from,
{
    if from < upto {
        lemma_offset_grows(counts, from + 1, upto);
        lemma_offset_nonnegative(counts, from);
    } else {
        lemma_offset_nonnegative(counts, from);
    }
}

/// The bit strings of a length that begin a longer code are fewer than
/// 256.
pub proof fn lemma_inner_range(counts: Seq<u8>, len: int)
    ensures
        0 <= inner(counts, len) <= 255,
    decreases counts.len() - len,
{
    if len + 1 < counts.len() {
        lemma_inner_range(counts, len + 1);
    }
}

/// Where the codes use up the code space, the bit strings of a length that
/// are no code all begin a longer code.
pub proof fn lemma_complete_inner(counts: Seq<u8>, len: int)
    requires
        complete(counts),
        0 <= len < counts.len(),
    ensures
        inner(counts, len) == left(counts, len),
    decreases counts.len() - len,
{
    if len + 1 < counts.len() {
        lemma_complete_inner(counts, len + 1);
    }
}

/// In a table without symbols no bit string begins a code.
pub proof fn lemma_empty_inner(code: Code, len: int)
    requires
        code.is_empty(),
        0 <= len < code.counts.len(),
    ensures
        inner(code.counts, len) == 0,
        len >= 1 ==> code.counts[len] == 0,
    decreases code.counts.len() - len,
{
    lemma_offset_grows(code.counts, len + 1, code.counts.len() as int);
    lemma_offset_nonnegative(code.counts, len);
    if len + 1 < code.counts.len() {
        lemma_empty_inner(code, len + 1);
    }
}

/// One more bit doubles the number and adds the bit.
pub proof fn lemma_value_push(bits: Seq<bool>, bit: bool)
    ensures
        value(bits.push(bit)) == 2 * value(bits) + if bit {
            1int
        } else {
            0int
        },
{
    assert(bits.push(bit).drop_last() =~= bits);
}

} // verus!
