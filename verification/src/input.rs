//! The input of the decompressor: bytes that arrive one at a time, and are
//! read bit by bit, lowest bit first.

use crate::codes::{complete, CanonicalHuffman, Code, Cursor, DecodeResult};
use crate::error::{Error, Result};
use vstd::arithmetic::power2::pow2;
use vstd::prelude::*;

verus! {

/// The bits that have arrived and were not read yet, as a number whose
/// lowest bit is the next to be read, and whether a new byte is awaited.
pub struct Bits {
    pub value: int,
    pub count: int,
    pub waiting: bool,
}

impl Bits {
    /// The number has no more bits than are counted.
    pub open spec fn wf(self) -> bool {
        &&& 0 <= self.count
        &&& 0 <= self.value < pow2(self.count as nat)
    }

    /// Whether `n` bits can be read.
    pub open spec fn has(self, n: int) -> bool {
        n <= self.count
    }

    /// The next `n` bits, as a number whose lowest bit is the first of them.
    pub open spec fn low(self, n: int) -> int {
        self.value % pow2(n as nat) as int
    }

    /// What is left when `n` bits were read.
    pub open spec fn drop(self, n: int) -> Bits {
        Bits { value: self.value / pow2(n as nat) as int, count: self.count - n, waiting: self.waiting }
    }

    /// The same bits, with a new byte awaited.
    pub open spec fn starved(self) -> Bits {
        Bits { waiting: true, ..self }
    }

    /// The same bits, with no new byte awaited.
    pub open spec fn revived(self) -> Bits {
        Bits { waiting: false, ..self }
    }

    /// The bits with `by` more behind them, which spell `more`.
    pub open spec fn extend(self, more: int, by: int) -> Bits {
        Bits {
            value: self.value + more * pow2(self.count as nat),
            count: self.count + by,
            waiting: self.waiting,
        }
    }

    /// What becomes of the bits when the byte `byte` is offered: it is taken
    /// in behind them if a byte is awaited, and ignored if not.
    pub open spec fn deliver(self, byte: u8) -> Bits {
        if self.waiting {
            self.extend(byte as int, 8).revived()
        } else {
            self
        }
    }
}

/// Reading bits leaves the rest in order.
pub proof fn lemma_drop(bits: Bits, n: int)
    requires
        bits.wf(),
        0 <= n <= bits.count,
    ensures
        bits.drop(n).wf(),
        0 <= bits.low(n) < pow2(n as nat),
{
    let low = pow2(n as nat) as int;
    let high = pow2((bits.count - n) as nat) as int;
    vstd::arithmetic::power2::lemma_pow2_pos(n as nat);
    vstd::arithmetic::power2::lemma_pow2_adds(n as nat, (bits.count - n) as nat);
    vstd::arithmetic::div_mod::lemma_multiply_divide_lt(bits.value, low, high);
    vstd::arithmetic::div_mod::lemma_div_pos_is_pos(bits.value, low);
    vstd::arithmetic::div_mod::lemma_mod_bound(bits.value, low);
}

/// Bits that arrive behind the bits at hand change nothing of what is read
/// from those.
pub proof fn lemma_extend(bits: Bits, more: int, by: int, n: int)
    requires
        bits.wf(),
        0 <= n <= bits.count,
        0 <= by,
        0 <= more < pow2(by as nat),
    ensures
        bits.extend(more, by).wf(),
        bits.extend(more, by).low(n) == bits.low(n),
        bits.extend(more, by).drop(n) == bits.drop(n).extend(more, by),
{
    let low = pow2(n as nat) as int;
    let high = pow2((bits.count - n) as nat) as int;
    let all = pow2(bits.count as nat) as int;
    let top = pow2(by as nat) as int;
    vstd::arithmetic::power2::lemma_pow2_pos(n as nat);
    vstd::arithmetic::power2::lemma_pow2_pos(bits.count as nat);
    vstd::arithmetic::power2::lemma_pow2_adds(n as nat, (bits.count - n) as nat);
    vstd::arithmetic::power2::lemma_pow2_adds(bits.count as nat, by as nat);
    assert(more * all == low * (more * high) && more * all == (more * high) * low) by (nonlinear_arith)
        requires
            all == low * high,
    ;
    assert(0 <= more * all && bits.value + more * all < all * top) by (nonlinear_arith)
        requires
            0 <= more < top,
            0 <= bits.value < all,
    ;
    vstd::arithmetic::div_mod::lemma_mod_multiples_vanish(more * high, bits.value, low);
    vstd::arithmetic::div_mod::lemma_hoist_over_denominator(bits.value, more * high, low as nat);
}

/// A byte that is taken in, with further bits behind it, is as much as the
/// byte and those bits arriving together.
pub proof fn lemma_deliver_extend(bits: Bits, byte: u8, more: int, by: int)
    requires
        bits.wf(),
        bits.waiting,
        0 <= by,
        0 <= more < pow2(by as nat),
    ensures
        bits.deliver(byte).extend(more, by) == bits.revived().extend(byte + 256 * more, 8 + by),
        0 <= byte + 256 * more < pow2((8 + by) as nat),
        bits.deliver(byte).wf(),
{
    let unit = pow2(bits.count as nat) as int;
    vstd::arithmetic::power2::lemma_pow2_adds(bits.count as nat, 8);
    vstd::arithmetic::power2::lemma_pow2_adds(8, by as nat);
    vstd::arithmetic::power2::lemma2_to64();
    assert((byte + 256 * more) * unit == byte * unit + more * (unit * 256)) by (nonlinear_arith);
    lemma_extend(bits, byte as int, 8, 0);
}

/// What reading one symbol of the table `code` from `bits` makes of the bits
/// and of the decoder's cursor, and the symbol if the bits reach to the end
/// of its code. A bit 0 of the input is a bit 1 of the code. (The last case
/// does not arise with a table whose codes use up the code space.)
pub open spec fn decode_symbol(bits: Bits, cursor: Cursor, code: Code) -> (Bits, Cursor, Option<u8>)
    decreases bits.count,
{
    if !bits.has(1) {
        (bits.starved(), cursor, None)
    } else {
        let (next, result) = cursor.step(code, bits.low(1) != 1);
        match result {
            DecodeResult::Incomplete => decode_symbol(bits.drop(1), next, code),
            DecodeResult::Symbol(symbol) => (bits.drop(1), next, Some(symbol)),
            DecodeResult::Invalid => (bits.starved(), cursor, None),
        }
    }
}

/// A symbol is not found without a bit being read.
pub proof fn lemma_decode_consumes(bits: Bits, cursor: Cursor, code: Code)
    ensures
        decode_symbol(bits, cursor, code).2 is Some ==> 0 <= decode_symbol(
            bits,
            cursor,
            code,
        ).0.count < bits.count,
    decreases bits.count,
{
    if bits.has(1) {
        let bit = bits.low(1) != 1;
        if cursor.step(code, bit).1 is Incomplete {
            lemma_decode_consumes(bits.drop(1), cursor.step(code, bit).0, code);
        }
    }
}

/// Reading a symbol leaves no more bits than there were, and not fewer than
/// none.
pub proof fn lemma_decode_bounds(bits: Bits, cursor: Cursor, code: Code)
    requires
        0 <= bits.count,
    ensures
        0 <= decode_symbol(bits, cursor, code).0.count <= bits.count,
    decreases bits.count,
{
    if bits.has(1) {
        let bit = bits.low(1) != 1;
        if cursor.step(code, bit).1 is Incomplete {
            lemma_decode_bounds(bits.drop(1), cursor.step(code, bit).0, code);
        }
    }
}

/// Reading a symbol uses up bits, keeps the rest in order, and leaves the
/// cursor in the table. Where no symbol is found a new byte is awaited.
pub proof fn lemma_decode_symbol(bits: Bits, cursor: Cursor, code: Code)
    requires
        bits.wf(),
        code.wf(),
        cursor.wf(code),
    ensures
        decode_symbol(bits, cursor, code).0.wf(),
        decode_symbol(bits, cursor, code).1.wf(code),
        decode_symbol(bits, cursor, code).0.count <= bits.count,
        decode_symbol(bits, cursor, code).2 is Some ==> decode_symbol(bits, cursor, code).0.count
            < bits.count && decode_symbol(bits, cursor, code).0.waiting == bits.waiting,
        decode_symbol(bits, cursor, code).2 is None ==> decode_symbol(
            bits,
            cursor,
            code,
        ).0.waiting,
        complete(code.counts) && decode_symbol(bits, cursor, code).2 is None ==> decode_symbol(
            bits,
            cursor,
            code,
        ).0.count == 0,
        decode_symbol(bits, cursor, code).2 matches Some(symbol) ==> exists|at: int|
            0 <= at < code.symbols.len() && code.symbols[at] == symbol,
    decreases bits.count,
{
    if bits.has(1) {
        let bit = bits.low(1) != 1;
        lemma_drop(bits, 1);
        cursor.lemma_step_wf(code, bit);
        cursor.lemma_step_symbol(code, bit);
        if complete(code.counts) {
            cursor.lemma_complete_step(code, bit);
        }
        if cursor.step(code, bit).1 is Incomplete {
            lemma_decode_symbol(bits.drop(1), cursor.step(code, bit).0, code);
        }
    }
}

/// Bits that arrive behind the bits at hand change nothing of a symbol that
/// was found in those; where none was found, reading goes on from where it
/// stopped.
pub proof fn lemma_decode_extend(bits: Bits, cursor: Cursor, code: Code, more: int, by: int)
    requires
        bits.wf(),
        !bits.waiting,
        code.wf(),
        complete(code.counts),
        cursor.wf(code),
        0 <= by,
        0 <= more < pow2(by as nat),
    ensures
        decode_symbol(bits, cursor, code).2 is Some ==> decode_symbol(
            bits.extend(more, by),
            cursor,
            code,
        ) == (
            decode_symbol(bits, cursor, code).0.extend(more, by),
            decode_symbol(bits, cursor, code).1,
            decode_symbol(bits, cursor, code).2,
        ),
        decode_symbol(bits, cursor, code).2 is None ==> decode_symbol(
            bits.extend(more, by),
            cursor,
            code,
        ) == decode_symbol(
            decode_symbol(bits, cursor, code).0.revived().extend(more, by),
            decode_symbol(bits, cursor, code).1,
            code,
        ),
    decreases bits.count,
{
    if bits.has(1) {
        let bit = bits.low(1) != 1;
        lemma_drop(bits, 1);
        lemma_extend(bits, more, by, 1);
        cursor.lemma_step_wf(code, bit);
        cursor.lemma_complete_step(code, bit);
        if cursor.step(code, bit).1 is Incomplete {
            lemma_decode_extend(bits.drop(1), cursor.step(code, bit).0, code, more, by);
        }
    } else {
        assert(bits.starved().revived() == bits);
    }
}

/// The byte that was offered last, and what was done with it.
#[derive(Clone, Copy, Debug)]
pub enum ExplodeInputState {
    /// The byte was offered and not read yet.
    Available(u8),
    /// The byte was read.
    Taken,
    /// The byte was read, and a further one was asked for.
    Waiting,
}

/// The bitstream input.
#[derive(Debug)]
pub struct ExplodeInput {
    next: ExplodeInputState,
    // bits that were taken from a byte and not read yet
    bitbuf: u32,
    bitcount: u8,
}

impl ExplodeInputState {
    /// Offers a byte. It is kept only if a byte is awaited.
    pub fn feed(&mut self, value: u8)
        ensures
            *final(self) == if *old(self) is Waiting {
                ExplodeInputState::Available(value)
            } else {
                *old(self)
            },
    {
        if let ExplodeInputState::Waiting = self {
            *self = ExplodeInputState::Available(value);
        }
    }

    /// Reads the byte that was offered. Where it was read already, a new one
    /// is asked for.
    pub fn take(&mut self) -> (byte: Result<u8>)
        requires
            !(*old(self) is Waiting),
        ensures
            match *old(self) {
                ExplodeInputState::Available(value) => byte == Ok::<u8, Error>(value)
                    && *final(self) is Taken,
                _ => byte == Err::<u8, Error>(Error::IncompleteInput) && *final(self) is Waiting,
            },
    {
        match *self {
            ExplodeInputState::Available(value) => {
                *self = ExplodeInputState::Taken;
                Ok(value)
            },
            _ => {
                *self = ExplodeInputState::Waiting;
                Err(Error::IncompleteInput)
            },
        }
    }
}

/// A shift of 1 is a power of two.
proof fn lemma_shift(by: u32)
    requires
        by < 32,
    ensures
        (1u32 << by) == pow2(by as nat),
{
    vstd::bits::lemma_u32_pow2_no_overflow(by as nat);
    vstd::bits::lemma_u32_shl_is_mul(1, by);
}

impl View for ExplodeInput {
    type V = Bits;

    closed spec fn view(&self) -> Bits {
        match self.next {
            ExplodeInputState::Available(byte) => Bits {
                value: self.bitbuf + byte * pow2(self.bitcount as nat),
                count: self.bitcount + 8,
                waiting: false,
            },
            ExplodeInputState::Taken => Bits {
                value: self.bitbuf as int,
                count: self.bitcount as int,
                waiting: false,
            },
            ExplodeInputState::Waiting => Bits {
                value: self.bitbuf as int,
                count: self.bitcount as int,
                waiting: true,
            },
        }
    }
}

impl ExplodeInput {
    /// At most seven bits are kept between two reads.
    pub closed spec fn wf(&self) -> bool {
        &&& self.bitcount <= 7
        &&& self.bitbuf < pow2(self.bitcount as nat)
    }

    /// What the input holds is in order: up to seven bits that were taken
    /// from a byte, and the eight bits of a byte that was not read yet.
    pub proof fn lemma_wf(&self)
        requires
            self.wf(),
        ensures
            self@.wf(),
            self@.count <= 15,
    {
        vstd::arithmetic::power2::lemma_pow2_adds(self.bitcount as nat, 8);
        vstd::arithmetic::power2::lemma2_to64();
        let low = pow2(self.bitcount as nat) as int;
        if let ExplodeInputState::Available(byte) = self.next {
            assert(byte * low <= 255 * low) by (nonlinear_arith)
                requires
                    0 <= byte <= 255,
                    0 <= low,
            ;
        }
    }

    /// An input with no bits, which awaits its first byte.
    pub fn new() -> (input: Self)
        ensures
            input.wf(),
            input@ == (Bits { value: 0, count: 0, waiting: true }),
    {
        proof {
            vstd::arithmetic::power2::lemma2_to64();
        }
        ExplodeInput { next: ExplodeInputState::Waiting, bitbuf: 0, bitcount: 0 }
    }

    /// Offers a byte. It is kept only if a byte is awaited.
    pub fn offer(&mut self, byte: u8)
        requires
            old(self).wf(),
        ensures
            final(self).wf(),
            final(self)@ == old(self)@.deliver(byte),
    {
        self.next.feed(byte);
    }

    /// Reads `n` bits. Where fewer are there, none is read and a new byte is
    /// asked for.
    pub fn bits(&mut self, n: u8) -> (value: Result<u32>)
        requires
            old(self).wf(),
            !old(self)@.waiting,
            n <= 8,
        ensures
            final(self).wf(),
            old(self)@.has(n as int) ==> value == Ok::<u32, Error>(
                old(self)@.low(n as int) as u32,
            ) && final(self)@ == old(self)@.drop(n as int),
            !old(self)@.has(n as int) ==> value == Err::<u32, Error>(Error::IncompleteInput)
                && final(self)@ == old(self)@.starved(),
    {
        let ghost before = self@;
        if self.bitcount < n {
            match self.next.take() {
                Ok(byte) => {
                    let kept = self.bitbuf;
                    let at = self.bitcount as u32;
                    let wide = byte as u32;
                    proof {
                        lemma_shift(at);
                        lemma_shift((at + 8) as u32);
                    }
                    assert((kept | (wide << at)) == kept + wide * (1u32 << at) && (kept | (wide
                        << at)) < (1u32 << ((at + 8) as u32))) by (bit_vector)
                        requires
                            at <= 7,
                            wide < 256,
                            kept < (1u32 << at),
                    ;
                    self.bitbuf = self.bitbuf | ((byte as u32) << self.bitcount);
                    self.bitcount += 8;
                    assert(self@ == before);
                },
                Err(e) => {
                    return Err(e);
                },
            }
        }
        let kept = self.bitbuf;
        let at = self.bitcount as u32;
        let n32 = n as u32;
        assert((1u32 << n32) >= 1) by (bit_vector)
            requires
                n32 <= 8,
        ;
        let mask: u32 = (1u32 << n) - 1;
        proof {
            lemma_shift(at);
            lemma_shift(n32);
            lemma_shift((at - n32) as u32);
            assert((kept & mask) == kept % (1u32 << n32) && (kept >> n32) == kept / (1u32 << n32)
                && (kept >> n32) < (1u32 << ((at - n32) as u32))) by (bit_vector)
                requires
                    n32 <= at,
                    at <= 15,
                    kept < (1u32 << at),
                    mask == (1u32 << n32) - 1,
            ;
            if let ExplodeInputState::Available(byte) = self.next {
                let wide = byte as u32;
                let whole = kept | (wide << at);
                assert(whole == kept + wide * (1u32 << at) && whole % (1u32 << n32) == kept % (1u32
                    << n32) && whole / (1u32 << n32) == (kept >> n32) + wide * (1u32 << ((at
                    - n32) as u32))) by (bit_vector)
                    requires
                        n32 <= at,
                        at <= 7,
                        wide < 256,
                        kept < (1u32 << at),
                        whole == kept | (wide << at),
                ;
            }
        }
        self.bitbuf = self.bitbuf >> n;
        self.bitcount -= n;
        Ok(kept & mask)
    }

    /// Reads one symbol of `table`, whose codes use up the code space, bit by
    /// bit. Where the bits end before the code does, the decoder keeps what
    /// it has read, and a new byte is asked for.
    pub fn decode(&mut self, decoder: &mut Cursor, table: &CanonicalHuffman) -> (symbol: Result<u8>)
        requires
            old(self).wf(),
            !old(self)@.waiting,
            table.wf(),
            complete(table@.counts),
            old(decoder).wf(table@),
        ensures
            final(self).wf(),
            final(decoder).wf(table@),
            final(self)@ == decode_symbol(old(self)@, *old(decoder), table@).0,
            *final(decoder) == decode_symbol(old(self)@, *old(decoder), table@).1,
            match decode_symbol(old(self)@, *old(decoder), table@).2 {
                Some(found) => symbol == Ok::<u8, Error>(found),
                None => symbol == Err::<u8, Error>(Error::IncompleteInput),
            },
    {
        let ghost whole = decode_symbol(self@, *decoder, table@);
        loop
            invariant
                self.wf(),
                !self@.waiting,
                table.wf(),
                complete(table@.counts),
                decoder.wf(table@),
                decode_symbol(self@, *decoder, table@) == whole,
                whole == decode_symbol(old(self)@, *old(decoder), table@),
            decreases self@.count,
        {
            proof {
                self.lemma_wf();
                table.lemma_wf();
                decoder.lemma_complete_step(table@, self@.low(1) != 1);
                vstd::arithmetic::power2::lemma2_to64();
            }
            // codes in this format are inverted from canonical
            let bit = match self.bits(1) {
                Ok(raw) => raw != 1,
                Err(e) => {
                    return Err(e);
                },
            };
            match decoder.feed(table, bit) {
                DecodeResult::Incomplete => {},
                DecodeResult::Invalid => {
                    assert(false);
                    return Err(Error::IncompleteInput);
                },
                DecodeResult::Symbol(found) => {
                    return Ok(found);
                },
            }
        }
    }
}

} // verus!
