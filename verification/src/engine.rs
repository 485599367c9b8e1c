//! The decompressor: an engine that is fed the compressed stream byte by
//! byte and fills an output buffer, and the functions that decompress a
//! block of memory with it.

use crate::codes::{CanonicalHuffman, Cursor};
use crate::error::{Error, Result};
use crate::input::{lemma_drop, ExplodeInput};
use crate::machine::{
    explode_spec, length_base, length_extra, loaded, run, step, stream_number, END_LENGTH,
    ExplodeState, Machine, Pass,
};
use crate::passes::{
    lemma_fresh, lemma_resume, lemma_run_progress, lemma_run_wf, lemma_starved,
    lemma_step_decreases, lemma_step_room, lemma_step_wf, lemma_supplied_all,
    lemma_supplied_offered, lemma_symbol_ranges, resumed, supplied,
};
use crate::tables::{
    distance, distance_code, lemma_distance_complete, lemma_length_complete,
    lemma_literal_complete, length, length_code, literal, literal_code,
};
use crate::window::SlidingWindow;
use vstd::arithmetic::power2::pow2;
use vstd::prelude::*;

verus! {

/// Low-level decompression interface.
///
/// The usual control flow with this interface is to provide a buffer to
/// decompress into with `with_buffer`, and then to feed the resulting
/// `ExplodeBuffer` handle with bytes until it returns `Ok`. Then the filled
/// portion of the buffer holds decompressed data.
///
/// The input byte that is fed to `ExplodeBuffer::feed` must change only
/// when `Error::IncompleteInput` asks for it: until then a different byte is
/// not looked at.
#[derive(Debug)]
pub struct Explode {
    state: ExplodeState,
    // header info
    lit: Option<u8>,
    dict: Option<u8>,
    // input management
    input: ExplodeInput,
    // the most recent output (which cannot exceed 4096 bytes)
    window: SlidingWindow,
    // the three tables of the format
    literal: CanonicalHuffman,
    length: CanonicalHuffman,
    distance: CanonicalHuffman,
}

/// A handle to feed input to the decompressor: the engine together with
/// the buffer that it fills, and the number of bytes filled.
#[derive(Debug)]
pub struct ExplodeBuffer<'a> {
    pub parent: &'a mut Explode,
    pub buf: &'a mut [u8],
    pub pos: usize,
}

/// The least length that the length symbol `symbol` stands for.
fn len_base(symbol: usize) -> (base: usize)
    requires
        symbol < 16,
    ensures
        base == length_base(symbol as int),
{
    let bases: [usize; 16] = [3, 2, 4, 5, 6, 7, 8, 9, 10, 12, 16, 24, 40, 72, 136, 264];
    bases[symbol]
}

/// The number of extra bits that follow the length symbol `symbol`.
fn len_extra(symbol: usize) -> (extra: u8)
    requires
        symbol < 16,
    ensures
        extra == length_extra(symbol as int),
        extra <= 8,
{
    let extras: [u8; 16] = [0, 0, 0, 0, 0, 0, 0, 0, 1, 2, 3, 4, 5, 6, 7, 8];
    extras[symbol]
}

impl View for Explode {
    type V = Machine;

    closed spec fn view(&self) -> Machine {
        Machine {
            state: self.state,
            lit: self.lit,
            dict: self.dict,
            input: self.input@,
            window: self.window@,
        }
    }
}

impl Explode {
    /// The engine holds the tables of the format, and what its state needs.
    pub closed spec fn wf(&self) -> bool {
        &&& self.input.wf()
        &&& self.window.wf()
        &&& self.literal.wf()
        &&& self.length.wf()
        &&& self.distance.wf()
        &&& self.literal@ == literal_code()
        &&& self.length@ == length_code()
        &&& self.distance@ == distance_code()
        &&& self@.wf()
    }

    /// The engine as a machine is in order.
    pub proof fn lemma_wf(&self)
        requires
            self.wf(),
        ensures
            self@.wf(),
    {
    }

    /// Create a new Explode decompression state.
    pub fn new() -> (engine: Self)
        ensures
            engine.wf(),
            engine@ == Machine::fresh(),
    {
        let input = ExplodeInput::new();
        proof {
            input.lemma_wf();
        }
        Explode {
            state: ExplodeState::Start,
            lit: None,
            dict: None,
            input,
            window: SlidingWindow::new(),
            literal: literal(),
            length: length(),
            distance: distance(),
        }
    }

    /// Provide a buffer to decompress into.
    ///
    /// This returns a `ExplodeBuffer` handle that is used for feeding input
    /// to decompress and other operations.
    pub fn with_buffer<'a>(&'a mut self, buf: &'a mut [u8]) -> (handle: ExplodeBuffer<'a>)
        ensures
            *handle.parent == *old(self),
            handle.buf@ == old(buf)@,
            handle.pos == 0,
            *final(self) == *final(handle.parent),
            final(buf)@ == final(handle.buf)@,
    {
        ExplodeBuffer { parent: self, buf, pos: 0 }
    }

    /// Returns true if decompression is finished.
    pub fn done(&self) -> (done: bool)
        ensures
            done == self@.done(),
    {
        if let ExplodeState::End = self.state {
            true
        } else {
            false
        }
    }

    /// Offers a byte to the input. It is kept only if a byte is awaited.
    fn offer(&mut self, byte: u8)
        requires
            old(self).wf(),
        ensures
            final(self).wf(),
            final(self)@ == old(self)@.offered(byte),
    {
        self.input.offer(byte);
        proof {
            self.input.lemma_wf();
        }
    }

    /// Takes one step. `full` says that there is no room for a further byte
    /// of output. Returns the byte that the step put out, and, where the
    /// pass ends with it, how.
    fn advance(&mut self, full: bool) -> (taken: (Option<u8>, Option<Result<()>>))
        requires
            old(self).wf(),
            !old(self)@.input.waiting,
        ensures
            final(self).wf(),
            final(self)@ == step(old(self)@, full).machine,
            taken.0 == step(old(self)@, full).out,
            taken.1 == step(old(self)@, full).stop,
    {
        proof {
            reveal(step);
            lemma_step_wf(self@, full);
            lemma_symbol_ranges();
            lemma_length_complete();
            lemma_distance_complete();
            lemma_literal_complete();
            vstd::arithmetic::power2::lemma2_to64();
            self.input.lemma_wf();
            if self@.input.has(8) {
                lemma_drop(self@.input, 8);
            }
        }
        // first byte is 0 if literals are uncoded, or 1 if coded
        let lit = match self.lit {
            Some(lit) => lit,
            None => {
                let lit = match self.input.bits(8) {
                    Ok(lit) => lit,
                    Err(e) => {
                        return (None, Some(Err(e)));
                    },
                };
                if lit > 1 {
                    return (None, Some(Err(Error::BadLiteralFlag)));
                }
                self.lit = Some(lit as u8);
                return (None, None);
            },
        };
        // second byte is 4, 5, or 6 for # extra bits in distance code
        // (distance code is 6 + this bits total)
        let dict = match self.dict {
            Some(dict) => dict,
            None => {
                let dict = match self.input.bits(8) {
                    Ok(dict) => dict,
                    Err(e) => {
                        return (None, Some(Err(e)));
                    },
                };
                if dict < 4 || dict > 6 {
                    return (None, Some(Err(Error::BadDictionary)));
                }
                self.dict = Some(dict as u8);
                return (None, None);
            },
        };
        match self.state {
            ExplodeState::Start => {
                let flag = match self.input.bits(1) {
                    Ok(flag) => flag,
                    Err(e) => {
                        return (None, Some(Err(e)));
                    },
                };
                if flag > 0 {
                    // this is a length/distance pair. length first.
                    self.state = ExplodeState::Length { decoder: Cursor::new() };
                } else if lit > 0 {
                    // this is a coded literal
                    self.state = ExplodeState::LiteralCoded { decoder: Cursor::new() };
                } else {
                    self.state = ExplodeState::Literal;
                }
                (None, None)
            },
            ExplodeState::Length { decoder } => {
                let mut decoder = decoder;
                match self.input.decode(&mut decoder, &self.length) {
                    Ok(symbol) => {
                        self.state = ExplodeState::LengthExtra { symbol: symbol as usize };
                        (None, None)
                    },
                    Err(e) => {
                        self.state = ExplodeState::Length { decoder };
                        (None, Some(Err(e)))
                    },
                }
            },
            ExplodeState::LengthExtra { symbol } => {
                proof {
                    if self@.input.has(length_extra(symbol as int)) {
                        lemma_drop(self@.input, length_extra(symbol as int));
                    }
                }
                let extra = match self.input.bits(len_extra(symbol)) {
                    Ok(extra) => extra,
                    Err(e) => {
                        return (None, Some(Err(e)));
                    },
                };
                let len = len_base(symbol) + extra as usize;
                if len == END_LENGTH {
                    // end code
                    self.state = ExplodeState::End;
                } else {
                    // distance next
                    self.state = ExplodeState::Distance { len, decoder: Cursor::new() };
                }
                (None, None)
            },
            ExplodeState::Distance { len, decoder } => {
                let mut decoder = decoder;
                match self.input.decode(&mut decoder, &self.distance) {
                    Ok(symbol) => {
                        self.state = ExplodeState::DistanceExtra { len, symbol: symbol as usize };
                        (None, None)
                    },
                    Err(e) => {
                        self.state = ExplodeState::Distance { len, decoder };
                        (None, Some(Err(e)))
                    },
                }
            },
            ExplodeState::DistanceExtra { len, symbol } => {
                let extra_bits: u8 = if len == 2 {
                    2
                } else {
                    dict
                };
                proof {
                    if self@.input.has(extra_bits as int) {
                        lemma_drop(self@.input, extra_bits as int);
                    }
                }
                let extra = match self.input.bits(extra_bits) {
                    Ok(extra) => extra,
                    Err(e) => {
                        return (None, Some(Err(e)));
                    },
                };
                let high: u32 = symbol as u32;
                proof {
                    let scale = pow2(extra_bits as nat) as int;
                    assert(high * scale <= 63 * 64) by (nonlinear_arith)
                        requires
                            0 <= high <= 63,
                            0 <= scale <= 64,
                    ;
                    vstd::bits::lemma_u32_shl_is_mul(high, extra_bits as u32);
                }
                let dist = (high << extra_bits) as usize + extra as usize + 1;
                if dist > self.window.len() {
                    // too far back
                    return (None, Some(Err(Error::BadDistance)));
                }
                self.state = ExplodeState::Copy { dist, len };
                (None, None)
            },
            ExplodeState::Copy { dist, len } => {
                if len == 0 {
                    self.state = ExplodeState::Start;
                    return (None, None);
                }
                if full {
                    // not enough room
                    return (None, Some(Ok(())));
                }
                let value = self.window.back(dist);
                self.window.push(value);
                self.state = ExplodeState::Copy { dist, len: len - 1 };
                (Some(value), None)
            },
            ExplodeState::Literal => {
                if full {
                    // not enough room
                    return (None, Some(Ok(())));
                }
                let value = match self.input.bits(8) {
                    Ok(value) => value as u8,
                    Err(e) => {
                        return (None, Some(Err(e)));
                    },
                };
                self.window.push(value);
                self.state = ExplodeState::Start;
                (Some(value), None)
            },
            ExplodeState::LiteralCoded { decoder } => {
                if full {
                    // not enough room
                    return (None, Some(Ok(())));
                }
                let mut decoder = decoder;
                match self.input.decode(&mut decoder, &self.literal) {
                    Ok(value) => {
                        self.window.push(value);
                        self.state = ExplodeState::Start;
                        (Some(value), None)
                    },
                    Err(e) => {
                        self.state = ExplodeState::LiteralCoded { decoder };
                        (None, Some(Err(e)))
                    },
                }
            },
            ExplodeState::End => (None, Some(Ok(()))),
        }
    }
}

impl<'a> ExplodeBuffer<'a> {
    /// The engine is in order and no more is filled than the buffer holds.
    pub open spec fn wf(&self) -> bool {
        &&& self.parent.wf()
        &&& self.pos <= self.buf@.len()
    }

    /// The engine as a machine.
    pub open spec fn machine(&self) -> Machine {
        self.parent@
    }

    /// The number of bytes that the buffer has still room for.
    pub open spec fn room(&self) -> int {
        self.buf@.len() - self.pos
    }

    /// The filled portion of the buffer.
    pub open spec fn filled(&self) -> Seq<u8> {
        self.buf@.take(self.pos as int)
    }

    /// Feed in a byte `input` to decompress.
    ///
    /// Signals a full output buffer, or the end of the stream, by returning
    /// `Ok(())`. The filled portion of the buffer is had with `get`, and
    /// the buffer is made empty again with `reset`.
    ///
    /// The same byte is to be fed in again and again, until
    /// `Error::IncompleteInput` asks for more input. Until then a byte that
    /// differs is not looked at.
    pub fn feed(&mut self, input: u8) -> (result: Result<()>)
        requires
            old(self).wf(),
        ensures
            final(self).wf(),
            final(self).parent@ == run(
                old(self).parent@.offered(input),
                Some(old(self).room()),
            ).machine,
            final(self).filled() == old(self).filled() + run(
                old(self).parent@.offered(input),
                Some(old(self).room()),
            ).out,
            result == run(old(self).parent@.offered(input), Some(old(self).room())).result,
            final(self).buf@.len() == old(self).buf@.len(),
            *final(final(self).parent) == *final(old(self).parent),
            final(final(self).buf)@ == final(old(self).buf)@,
    {
        self.parent.offer(input);
        let ghost whole = run(self.parent@, Some(self.room()));
        let ghost mut emitted = Seq::<u8>::empty();
        assert(self.filled() + emitted =~= self.filled());
        // decode literals and length/distance pairs
        loop
            invariant
                self.wf(),
                !self.parent@.input.waiting,
                self.buf@.len() == old(self).buf@.len(),
                self.filled() == old(self).filled() + emitted,
                whole == run(old(self).parent@.offered(input), Some(old(self).room())),
                whole.machine == run(self.parent@, Some(self.room())).machine,
                whole.result == run(self.parent@, Some(self.room())).result,
                whole.out == emitted + run(self.parent@, Some(self.room())).out,
                *final(self.parent) == *final(old(self).parent),
                final(self.buf)@ == final(old(self).buf)@,
            decreases self.parent@.input.count, self.parent@.state.rank(), self.parent@.state.owed(),
        {
            let ghost before = self.parent@;
            let ghost room = self.room();
            let ghost filled = self.filled();
            proof {
                lemma_step_decreases(before, self.pos >= self.buf@.len());
                lemma_step_wf(before, self.pos >= self.buf@.len());
                lemma_step_room(before, self.pos >= self.buf@.len());
                self.parent.lemma_wf();
            }
            let (out, stop) = self.parent.advance(self.pos >= self.buf.len());
            if let Some(value) = out {
                self.buf[self.pos] = value;
                self.pos += 1;
                proof {
                    assert(self.filled() =~= filled.push(value));
                    assert(filled.push(value) =~= old(self).filled() + emitted.push(value));
                    assert(emitted.push(value) + run(self.parent@, Some(self.room())).out
                        =~= emitted + (seq![value] + run(self.parent@, Some(self.room())).out));
                    emitted = emitted.push(value);
                }
            }
            if let Some(result) = stop {
                assert(emitted + Seq::<u8>::empty() =~= emitted);
                return result;
            }
        }
    }

    /// Get a reference to the filled portion of the output buffer.
    ///
    /// This is usually called after `feed` returns `Ok(())`.
    pub fn get(&self) -> (filled: &[u8])
        requires
            self.pos <= self.buf@.len(),
        ensures
            filled@ == self.filled(),
    {
        vstd::slice::slice_subrange(self.buf, 0, self.pos)
    }

    /// Return the amount of output produced so far.
    pub fn len(&self) -> (len: usize)
        ensures
            len == self.pos,
    {
        self.pos
    }

    /// Reset the output buffer to empty.
    ///
    /// Note that this does *not* reset the entire decompressor state.
    pub fn reset(&mut self)
        ensures
            final(self).pos == 0,
            *final(self).parent == *old(self).parent,
            final(self).buf@ == old(self).buf@,
            *final(final(self).parent) == *final(old(self).parent),
            final(final(self).buf)@ == final(old(self).buf)@,
    {
        self.pos = 0;
    }

    /// Returns true if decompression is finished.
    pub fn done(&self) -> (done: bool)
        ensures
            done == self.machine().done(),
    {
        self.parent.done()
    }
}

/// Decompress a block of `data` in memory, using the given auxiliary
/// buffer `buf`.
///
/// This gives control over the size of the internal buffer used. The
/// result does not depend on it. A buffer without room for a single byte
/// cannot be used: one byte of the function's own then takes its place.
pub fn explode_with_buffer(data: &[u8], buf: &mut [u8]) -> (result: Result<Vec<u8>>)
    ensures
        match explode_spec(data@) {
            Ok(bytes) => result matches Ok(out) && out@ == bytes,
            Err(error) => result matches Err(e) && e == error,
        },
{
    if buf.len() == 0 {
        let mut own: Vec<u8> = vec![0u8; 1];
        explode_in_passes(data, own.as_mut_slice())
    } else {
        explode_in_passes(data, buf)
    }
}

/// Decompresses `data` in passes that each fill `buf`, which has room for at
/// least one byte.
fn explode_in_passes(data: &[u8], buf: &mut [u8]) -> (result: Result<Vec<u8>>)
    requires
        old(buf)@.len() > 0,
    ensures
        match explode_spec(data@) {
            Ok(bytes) => result matches Ok(out) && out@ == bytes,
            Err(error) => result matches Err(e) && e == error,
        },
{
    let mut dec = Explode::new();
    let mut i: usize = 0;
    let mut out: Vec<u8> = Vec::with_capacity(buf.len());
    let mut decbuf = dec.with_buffer(buf);
    let ghost whole = run(loaded(data@), None);
    proof {
        lemma_fresh(data@);
        assert(out@ + decbuf.filled() + whole.out =~= whole.out);
    }
    while i < data.len()
        invariant
            decbuf.wf(),
            decbuf.buf@.len() > 0,
            i <= data@.len(),
            !decbuf.machine().input.waiting ==> i < data@.len() && decbuf.pos == 0,
            decbuf.machine().input.waiting ==> run(decbuf.machine().revived(), None) == (Pass {
                machine: decbuf.machine(),
                out: Seq::empty(),
                result: Err(Error::IncompleteInput),
            }),
            whole == run(loaded(data@), None),
            whole.result == run(supplied(decbuf.machine(), data@, i as int), None).result,
            whole.out == out@ + decbuf.filled() + run(
                supplied(decbuf.machine(), data@, i as int),
                None,
            ).out,
        decreases
                data@.len() - i,
                if decbuf.machine().input.waiting {
                    1int
                } else {
                    0int
                },
                decbuf.machine().input.count,
                decbuf.machine().state.rank(),
                decbuf.machine().state.owed(),
    {
        let ghost before = decbuf.machine();
        let ghost first = before.offered(data@[i as int]);
        let ghost room = decbuf.room();
        let ghost pass = run(first, Some(room));
        let ghost more = stream_number(data@.skip(i + 1));
        let ghost by = 8 * (data@.len() - i - 1);
        let ghost filled = decbuf.filled();
        proof {
            decbuf.parent.lemma_wf();
            lemma_supplied_offered(before, data@, i as int);
            lemma_resume(first, Some(room), more, by);
            lemma_run_wf(first, Some(room));
            lemma_run_progress(first, Some(room));
            lemma_step_room(first, room <= 0);
            assert(run(supplied(before, data@, i as int), None) == resumed(pass, more, by));
        }
        match decbuf.feed(data[i]) {
            Ok(()) => {
                let decompressed = decbuf.get();
                out.extend_from_slice(decompressed);
                if decbuf.done() {
                    // we're done
                    return Ok(out);
                }
                decbuf.reset();
            },
            Err(Error::IncompleteInput) => {
                proof {
                    lemma_starved(first, Some(room));
                }
                i += 1;
            },
            Err(e) => {
                return Err(e);
            },
        }
    }
    proof {
        decbuf.parent.lemma_wf();
        lemma_supplied_all(decbuf.machine(), data@);
    }
    // out of input
    Err(Error::IncompleteInput)
}

/// Decompress a block of `data` in memory.
///
/// This function will internally decompress the given memory in blocks of
/// 4096 bytes. For a different block size, see `explode_with_buffer`.
pub fn explode(data: &[u8]) -> (result: Result<Vec<u8>>)
    ensures
        match explode_spec(data@) {
            Ok(bytes) => result matches Ok(out) && out@ == bytes,
            Err(error) => result matches Err(e) && e == error,
        },
{
    let mut buf: Vec<u8> = vec![0u8; 4096];
    explode_with_buffer(data, buf.as_mut_slice())
}

} // verus!
