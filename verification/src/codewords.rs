//! The codes of a table as bit strings: which bit strings are codes, which
//! begin one, and that decoding recovers every symbol from its code.

use crate::codes::{
    classify, decode_from, first_code, inner, left, lemma_empty_inner, lemma_inner_range,
    lemma_value_push, value, Code,
};
use crate::lengths::{
    counts_of, is_table_of, lemma_longest_covers, lemma_occurrences_grow, lemma_slot_range,
    occurrences, oversubscribed, representable, slot,
};
use vstd::prelude::*;

verus! {

/// The number `number` without its `by` lowest bits.
pub open spec fn shifted(number: int, by: int) -> int
    decreases by,
{
    if by <= 0 {
        number
    } else {
        shifted(number / 2, by - 1)
    }
}

/// The bit string of `width` bits that spells `number`, the first bit being
/// the highest.
pub open spec fn spell(number: int, width: int) -> Seq<bool>
    decreases width,
{
    if width <= 0 {
        Seq::empty()
    } else {
        spell(number / 2, width - 1).push(number % 2 == 1)
    }
}

/// The code of the symbol `sym` in the table for `lengths`: the codes of one
/// length count up from the first, in the order of the symbols.
pub open spec fn code_of(lengths: Seq<u8>, sym: int) -> Seq<bool> {
    spell(
        first_code(counts_of(lengths), lengths[sym] as int) + occurrences(
            lengths,
            lengths[sym] as int,
            sym,
        ),
        lengths[sym] as int,
    )
}

/// Whether `number`, as a bit string of length `len`, begins a longer code.
pub open spec fn begins_code(counts: Seq<u8>, number: int, len: int) -> bool {
    first_code(counts, len) + counts[len] <= number < first_code(counts, len) + counts[len]
        + inner(counts, len)
}

/// Some bits that make a code of the bit string `bits`, which begins one:
/// zeros, as many as it takes.
pub open spec fn completion(code: Code, bits: Seq<bool>) -> Seq<bool>
    decreases code.counts.len() - bits.len(),
{
    if bits.len() + 1 < code.counts.len() && classify(code, bits.push(false)) is Incomplete {
        seq![false] + completion(code, bits.push(false))
    } else {
        seq![false]
    }
}

/// Bits can be taken off in two goes.
proof fn lemma_shifted_twice(number: int, first: int, then: int)
    requires
        0 <= first,
        0 <= then,
    ensures
        shifted(shifted(number, first), then) == shifted(number, first + then),
    decreases first,
{
    if first > 0 {
        lemma_shifted_twice(number / 2, first - 1, then);
    }
}

/// A number spelled in `width` bits has `width` bits.
proof fn lemma_spell_len(number: int, width: int)
    requires
        0 <= width,
    ensures
        spell(number, width).len() == width,
    decreases width,
{
    if width > 0 {
        lemma_spell_len(number / 2, width - 1);
    }
}

/// A number that has no more than `width` bits is the number that its
/// spelling spells.
proof fn lemma_spell_value(number: int, width: int)
    requires
        0 <= number,
        0 <= width,
        shifted(number, width) == 0,
    ensures
        value(spell(number, width)) == number,
    decreases width,
{
    if width > 0 {
        lemma_spell_value(number / 2, width - 1);
        lemma_value_push(spell(number / 2, width - 1), number % 2 == 1);
    }
}

/// The first bits of a spelling spell the number without its last bits.
proof fn lemma_spell_take(number: int, width: int, keep: int)
    requires
        0 <= keep <= width,
    ensures
        spell(number, width).take(keep) == spell(shifted(number, width - keep), keep),
    decreases width,
{
    lemma_spell_len(number, width);
    if keep == width {
        assert(spell(number, width).take(keep) =~= spell(number, width));
    } else {
        lemma_spell_take(number / 2, width - 1, keep);
        lemma_spell_len(number / 2, width - 1);
        assert(spell(number, width).take(keep) =~= spell(number / 2, width - 1).take(keep));
    }
}

/// The first bits of a bit string spell its number without the last bits.
proof fn lemma_value_take(bits: Seq<bool>, keep: int)
    requires
        0 <= keep <= bits.len(),
    ensures
        value(bits.take(keep)) == shifted(value(bits), bits.len() - keep),
    decreases bits.len() - keep,
{
    if keep == bits.len() {
        assert(bits.take(keep) =~= bits);
    } else {
        lemma_value_take(bits.drop_last(), keep);
        assert(bits.drop_last().take(keep) =~= bits.take(keep));
    }
}

/// No code spells a negative number.
proof fn lemma_first_code_nonnegative(counts: Seq<u8>, len: int)
    ensures
        0 <= first_code(counts, len),
    decreases len,
{
    if len > 1 {
        lemma_first_code_nonnegative(counts, len - 1);
    }
}

/// A bit string that is a code or begins one, without its last bit,
/// begins a code.
proof fn lemma_parent(counts: Seq<u8>, number: int, len: int)
    requires
        2 <= len < counts.len(),
        first_code(counts, len) <= number < first_code(counts, len) + counts[len] + inner(
            counts,
            len,
        ),
    ensures
        begins_code(counts, number / 2, len - 1),
{
    lemma_inner_range(counts, len);
}

/// A bit string that is a code or begins one, without some of its last
/// bits, begins a code.
proof fn lemma_ancestors(counts: Seq<u8>, number: int, len: int, up: int)
    requires
        1 <= up < len < counts.len(),
        first_code(counts, len) <= number < first_code(counts, len) + counts[len] + inner(
            counts,
            len,
        ),
    ensures
        begins_code(counts, shifted(number, up), len - up),
    decreases up,
{
    lemma_parent(counts, number, len);
    if up > 1 {
        lemma_ancestors(counts, number / 2, len - 1, up - 1);
    } else {
        assert(shifted(number / 2, 0) == number / 2);
    }
}

/// Where no length is oversubscribed, the bit strings that begin a longer
/// code are among those that no code up to their length begins.
pub proof fn lemma_inner_within_left(counts: Seq<u8>, len: int)
    requires
        forall|l: int| 1 <= l < counts.len() ==> #[trigger] left(counts, l) >= 0,
        0 <= len < counts.len(),
    ensures
        inner(counts, len) <= left(counts, len),
    decreases counts.len() - len,
{
    if len + 1 < counts.len() {
        lemma_inner_within_left(counts, len + 1);
        assert(left(counts, len + 1) >= 0);
    } else if len >= 1 {
        assert(left(counts, len) >= 0);
    }
}

/// Decoding recovers every symbol from its code, whatever bits follow the
/// code: for a list of code lengths that is not oversubscribed, the table
/// decodes the code of each symbol that has one to that symbol.
pub proof fn lemma_decode_recovers(code: Code, lengths: Seq<u8>, sym: int, rest: Seq<bool>)
    requires
        representable(lengths),
        !oversubscribed(lengths),
        is_table_of(code, lengths),
        0 <= sym < lengths.len(),
        lengths[sym] > 0,
    ensures
        code_of(lengths, sym).len() == lengths[sym],
        decode_from(code, code_of(lengths, sym) + rest, 0) == Some(sym as u8),
{
    let counts = code.counts;
    let len = lengths[sym] as int;
    let total = lengths.len() as int;
    let rank = occurrences(lengths, len, sym);
    let number = first_code(counts, len) + rank;
    let bits = code_of(lengths, sym) + rest;
    lemma_longest_covers(lengths, total, sym);
    lemma_slot_range(lengths, sym);
    lemma_occurrences_grow(lengths, len, 0, sym);
    lemma_occurrences_grow(lengths, len, sym + 1, total);
    assert(occurrences(lengths, len, total) <= 255);
    assert(counts[len] == occurrences(lengths, len, total));
    lemma_first_code_nonnegative(counts, len);
    lemma_inner_range(counts, len);
    lemma_spell_len(number, len);
    assert(code.counts[0] != total) by {
        lemma_occurrences_grow(lengths, 0, 0, sym);
        lemma_occurrences_grow(lengths, 0, sym + 1, total);
        assert(occurrences(lengths, 0, total) <= 255);
    }
    // the bit string of the code, without its last bits, leads to the root
    assert(shifted(number, len) == 0) by {
        assert(forall|l: int| 1 <= l < counts.len() ==> #[trigger] left(counts, l) >= 0);
        lemma_inner_within_left(counts, 1);
        assert(left(counts, 1) >= 0);
        assert(left(counts, 0) == 1);
        assert(left(counts, 1) == 2 - counts[1]);
        let top = shifted(number, len - 1);
        if len > 1 {
            lemma_ancestors(counts, number, len, len - 1);
            lemma_shifted_twice(number, len - 1, 1);
        }
        assert(0 <= top < 2);
        assert(shifted(top / 2, 0) == top / 2);
        assert(shifted(top, 1) == 0);
    }
    assert forall|done: int| 0 <= done < len implies decode_from(code, bits, done) == Some(
        sym as u8,
    ) by {
        lemma_decode_along(code, lengths, sym, rest, done);
    }
}

/// Decoding the code of a symbol, of which some bits are read, gives the
/// symbol.
proof fn lemma_decode_along(code: Code, lengths: Seq<u8>, sym: int, rest: Seq<bool>, done: int)
    requires
        representable(lengths),
        is_table_of(code, lengths),
        0 <= sym < lengths.len(),
        lengths[sym] > 0,
        code.counts[0] != lengths.len(),
        0 <= done < lengths[sym],
        shifted(
            first_code(code.counts, lengths[sym] as int) + occurrences(
                lengths,
                lengths[sym] as int,
                sym,
            ),
            lengths[sym] as int,
        ) == 0,
    ensures
        decode_from(code, code_of(lengths, sym) + rest, done) == Some(sym as u8),
    decreases lengths[sym] - done,
{
    let counts = code.counts;
    let len = lengths[sym] as int;
    let total = lengths.len() as int;
    let rank = occurrences(lengths, len, sym);
    let number = first_code(counts, len) + rank;
    let bits = code_of(lengths, sym) + rest;
    let keep = done + 1;
    let node = shifted(number, len - keep);
    lemma_longest_covers(lengths, total, sym);
    lemma_slot_range(lengths, sym);
    lemma_occurrences_grow(lengths, len, 0, sym);
    lemma_occurrences_grow(lengths, len, sym + 1, total);
    assert(occurrences(lengths, len, total) <= 255);
    assert(counts[len] == occurrences(lengths, len, total));
    lemma_first_code_nonnegative(counts, len);
    lemma_first_code_nonnegative(counts, keep);
    lemma_inner_range(counts, len);
    lemma_spell_len(number, len);
    lemma_spell_take(number, len, keep);
    assert(bits.take(keep) =~= code_of(lengths, sym).take(keep));
    lemma_shifted_twice(number, len - keep, keep);
    if keep < len {
        lemma_ancestors(counts, number, len, len - keep);
        lemma_spell_value(node, keep);
        lemma_spell_len(node, keep);
        lemma_decode_along(code, lengths, sym, rest, done + 1);
    } else {
        lemma_spell_value(number, len);
        assert(code.symbols[slot(lengths, sym)] == sym);
    }
}

/// A bit string that is invalid begins no code, and a code begins no other:
/// only of a bit string that the table calls incomplete can further bits
/// make a code.
pub proof fn lemma_only_incomplete_goes_on(code: Code, bits: Seq<bool>, more: Seq<bool>)
    requires
        more.len() > 0,
        classify(code, bits + more) is Symbol,
    ensures
        classify(code, bits) is Incomplete,
{
    let whole = bits + more;
    let len = bits.len() as int;
    if len > 0 {
        lemma_value_take(whole, len);
        assert(whole.take(len) =~= bits);
        lemma_inner_range(code.counts, whole.len() as int);
        lemma_ancestors(code.counts, value(whole), whole.len() as int, more.len() as int);
        lemma_first_code_nonnegative(code.counts, len);
    }
}

/// A bit string that the table calls incomplete begins a code: there are
/// bits that make a code of it.
pub proof fn lemma_incomplete_begins_code(code: Code, bits: Seq<bool>)
    requires
        bits.len() > 0,
        classify(code, bits) is Incomplete,
    ensures
        classify(code, bits + completion(code, bits)) is Symbol,
    decreases code.counts.len() - bits.len(),
{
    let len = bits.len() as int;
    let next = bits.push(false);
    lemma_value_push(bits, false);
    lemma_inner_range(code.counts, len + 1);
    lemma_first_code_nonnegative(code.counts, len);
    assert(bits + seq![false] =~= next);
    if classify(code, next) is Incomplete {
        lemma_incomplete_begins_code(code, next);
        assert(bits + (seq![false] + completion(code, next)) =~= next + completion(code, next));
    }
}

/// In a table without symbols every bit string is invalid, and nothing is
/// decoded.
pub proof fn lemma_empty_rejects(code: Code, bits: Seq<bool>)
    requires
        code.is_empty(),
        bits.len() > 0,
    ensures
        classify(code, bits) is Invalid,
        decode_from(code, bits, 0) is None,
{
    if bits.len() < code.counts.len() {
        lemma_empty_inner(code, bits.len() as int);
    }
    if 1 < code.counts.len() {
        lemma_empty_inner(code, 1);
    }
    assert(bits.take(1).len() == 1);
}

} // verus!
