//! The table that a list of code lengths stands for.

use crate::codes::{left, lemma_offset_grows, lemma_offset_nonnegative, offset, Code};
use vstd::prelude::*;

verus! {

/// How many of the first `upto` entries of `lengths` equal `len`.
pub open spec fn occurrences(lengths: Seq<u8>, len: int, upto: int) -> int
    decreases upto,
{
    if upto <= 0 {
        0
    } else {
        occurrences(lengths, len, upto - 1) + if lengths[upto - 1] == len {
            1int
        } else {
            0int
        }
    }
}

/// The largest of the first `upto` entries of `lengths`, 0 if there is none.
pub open spec fn longest(lengths: Seq<u8>, upto: int) -> int
    decreases upto,
{
    if upto <= 0 {
        0
    } else if lengths[upto - 1] > longest(lengths, upto - 1) {
        lengths[upto - 1] as int
    } else {
        longest(lengths, upto - 1)
    }
}

/// The counts of the table for a list of code lengths: one entry for each
/// length from 0 to the longest.
pub open spec fn counts_of(lengths: Seq<u8>) -> Seq<u8> {
    Seq::new(
        (longest(lengths, lengths.len() as int) + 1) as nat,
        |len: int| occurrences(lengths, len, lengths.len() as int) as u8,
    )
}

/// Whether every count of the table for `lengths` fits in a byte, and every
/// symbol too.
pub open spec fn representable(lengths: Seq<u8>) -> bool {
    &&& lengths.len() <= 256
    &&& forall|len: int| #[trigger] occurrences(lengths, len, lengths.len() as int) <= 255
}

/// Whether `lengths` asks, at some length, for more codes than there are
/// bit strings left.
pub open spec fn oversubscribed(lengths: Seq<u8>) -> bool {
    exists|len: int|
        1 <= len < counts_of(lengths).len() && #[trigger] left(counts_of(lengths), len) < 0
}

/// The place in `symbols` of symbol `sym`: behind the symbols with shorter
/// codes and behind the earlier symbols with a code of the same length.
pub open spec fn slot(lengths: Seq<u8>, sym: int) -> int {
    offset(counts_of(lengths), lengths[sym] as int) + occurrences(lengths, lengths[sym] as int, sym)
}

/// Whether `code` is the canonical table for the code lengths `lengths`,
/// in which `lengths[s]` is the length of the code of symbol `s` and 0 means
/// that `s` has no code.
pub open spec fn is_table_of(code: Code, lengths: Seq<u8>) -> bool {
    &&& code.counts == counts_of(lengths)
    &&& if code.counts[0] == lengths.len() {
        code.symbols.len() == 0
    } else {
        &&& code.symbols.len() == lengths.len()
        &&& forall|sym: int|
            0 <= sym < lengths.len() && lengths[sym] > 0 ==> #[trigger] code.symbols[slot(
                lengths,
                sym,
            )] == sym
        &&& forall|at: int|
            offset(code.counts, code.counts.len() as int) <= at < lengths.len()
                ==> #[trigger] code.symbols[at] == 0
    }
}

/// The code lengths that the first `upto` bytes of `packed` stand for. Each
/// byte stands for a run of equal lengths: its low four bits are the length,
/// its high four bits one less than the number of times it is repeated.
pub open spec fn unpack(packed: Seq<u8>, upto: int) -> Seq<u8>
    decreases upto,
{
    if upto <= 0 {
        Seq::empty()
    } else {
        unpack(packed, upto - 1) + Seq::new(
            (packed[upto - 1] / 16 + 1) as nat,
            |i: int| packed[upto - 1] % 16,
        )
    }
}

/// How many of the first `upto` entries of `lengths` are codes shorter than
/// `len` bits.
pub open spec fn shorter(lengths: Seq<u8>, len: int, upto: int) -> int
    decreases upto,
{
    if upto <= 0 {
        0
    } else {
        shorter(lengths, len, upto - 1) + if 0 < lengths[upto - 1] < len {
            1int
        } else {
            0int
        }
    }
}

/// Among more entries a length occurs no less often, and no more often than
/// there are more entries.
pub proof fn lemma_occurrences_grow(lengths: Seq<u8>, len: int, from: int, upto: int)
    requires
        0 <= from <= upto,
    ensures
        0 <= occurrences(lengths, len, from) <= occurrences(lengths, len, upto),
        occurrences(lengths, len, upto) <= occurrences(lengths, len, from) + (upto - from),
    decreases upto,
{
    if from < upto {
        lemma_occurrences_grow(lengths, len, from, upto - 1);
    } else if upto > 0 {
        lemma_occurrences_grow(lengths, len, from - 1, upto - 1);
    }
}

/// The longest length is a length.
pub proof fn lemma_longest_range(lengths: Seq<u8>, upto: int)
    requires
        upto <= lengths.len(),
    ensures
        0 <= longest(lengths, upto) <= 255,
    decreases upto,
{
    if upto > 0 {
        lemma_longest_range(lengths, upto - 1);
    }
}

/// No entry is longer than the longest.
pub proof fn lemma_longest_covers(lengths: Seq<u8>, upto: int, at: int)
    requires
        0 <= at < upto <= lengths.len(),
    ensures
        lengths[at] <= longest(lengths, upto) <= 255,
    decreases upto,
{
    if at < upto - 1 {
        lemma_longest_covers(lengths, upto - 1, at);
    } else {
        lemma_longest_range(lengths, upto - 1);
    }
}

/// No code is shorter than one bit.
pub proof fn lemma_shorter_none(lengths: Seq<u8>, len: int, upto: int)
    requires
        len <= 1,
    ensures
        shorter(lengths, len, upto) == 0,
    decreases upto,
{
    if upto > 0 {
        lemma_shorter_none(lengths, len, upto - 1);
    }
}

/// Below `len + 1` are the codes below `len` and those of length `len`.
pub proof fn lemma_shorter_step(lengths: Seq<u8>, len: int, upto: int)
    requires
        1 <= len,
    ensures
        shorter(lengths, len + 1, upto) == shorter(lengths, len, upto) + occurrences(
            lengths,
            len,
            upto,
        ),
        0 <= shorter(lengths, len, upto),
        upto >= 0 ==> shorter(lengths, len, upto) + occurrences(lengths, 0, upto) <= upto,
    decreases upto,
{
    if upto > 0 {
        lemma_shorter_step(lengths, len, upto - 1);
    }
}

/// With every count in range, `offset` counts the symbols with shorter
/// codes.
pub proof fn lemma_offset_is_shorter(lengths: Seq<u8>, len: int)
    requires
        representable(lengths),
        len <= counts_of(lengths).len(),
    ensures
        offset(counts_of(lengths), len) == shorter(lengths, len, lengths.len() as int),
    decreases len,
{
    let n = lengths.len() as int;
    if len <= 1 {
        lemma_shorter_none(lengths, len, n);
    } else {
        lemma_offset_is_shorter(lengths, len - 1);
        lemma_shorter_step(lengths, len - 1, n);
        lemma_occurrences_grow(lengths, len - 1, 0, n);
        assert(occurrences(lengths, len - 1, n) <= 255);
    }
}

/// A symbol with a code has its place among the symbols of its length.
pub proof fn lemma_slot_range(lengths: Seq<u8>, sym: int)
    requires
        representable(lengths),
        0 <= sym < lengths.len(),
        lengths[sym] > 0,
    ensures
        0 <= offset(counts_of(lengths), lengths[sym] as int) <= slot(lengths, sym) < offset(
            counts_of(lengths),
            lengths[sym] + 1,
        ),
        offset(counts_of(lengths), lengths[sym] + 1) <= offset(
            counts_of(lengths),
            counts_of(lengths).len() as int,
        ) <= lengths.len(),
        offset(counts_of(lengths), counts_of(lengths).len() as int) + occurrences(
            lengths,
            0,
            lengths.len() as int,
        ) <= lengths.len(),
{
    let n = lengths.len() as int;
    let len = lengths[sym] as int;
    let counts = counts_of(lengths);
    lemma_longest_covers(lengths, n, sym);
    lemma_occurrences_grow(lengths, len, 0, sym);
    lemma_occurrences_grow(lengths, len, sym + 1, n);
    assert(occurrences(lengths, len, n) <= 255);
    assert(counts[len] == occurrences(lengths, len, n));
    lemma_offset_grows(counts, len + 1, counts.len() as int);
    lemma_offset_nonnegative(counts, len);
    lemma_offset_is_shorter(lengths, counts.len() as int);
    lemma_longest_range(lengths, n);
    lemma_shorter_step(lengths, counts.len() as int, n);
    lemma_occurrences_grow(lengths, 0, 0, n);
}

/// Two symbols with codes have different places.
pub proof fn lemma_slot_differs(lengths: Seq<u8>, one: int, other: int)
    requires
        representable(lengths),
        0 <= one < other < lengths.len(),
        lengths[one] > 0,
        lengths[other] > 0,
    ensures
        slot(lengths, one) != slot(lengths, other),
{
    let counts = counts_of(lengths);
    lemma_slot_range(lengths, one);
    lemma_slot_range(lengths, other);
    if lengths[one] == lengths[other] {
        lemma_occurrences_grow(lengths, lengths[one] as int, one + 1, other);
    } else if lengths[one] < lengths[other] {
        lemma_offset_grows(counts, lengths[one] + 1, lengths[other] as int);
    } else {
        lemma_offset_grows(counts, lengths[other] + 1, lengths[one] as int);
    }
}

/// Once the open code space reaches the number of symbols there can be,
/// no later length can use it up.
pub proof fn lemma_left_stays_large(counts: Seq<u8>, from: int, upto: int)
    requires
        0 <= from <= upto < counts.len(),
        left(counts, from) >= 256,
    ensures
        left(counts, upto) >= 256,
    decreases upto - from,
{
    if from < upto {
        lemma_left_stays_large(counts, from, upto - 1);
    }
}

/// Every length is 0 exactly when the longest is.
pub proof fn lemma_all_unused(lengths: Seq<u8>, upto: int)
    requires
        0 <= upto <= lengths.len(),
    ensures
        occurrences(lengths, 0, upto) == upto <==> longest(lengths, upto) == 0,
    decreases upto,
{
    if upto > 0 {
        lemma_all_unused(lengths, upto - 1);
        lemma_occurrences_grow(lengths, 0, 0, upto - 1);
        lemma_longest_range(lengths, upto - 1);
    }
}

} // verus!
