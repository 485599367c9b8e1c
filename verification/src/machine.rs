//! The decompressor as a state machine over the bits of its input: what it
//! does in each state, what a pass over the bits at hand produces, and what a
//! whole stream decompresses to.

use crate::codes::Cursor;
use crate::error::Error;
use crate::input::{decode_symbol, Bits};
use crate::passes::lemma_step_decreases;
use crate::tables::{distance_code, length_code, literal_code};
use crate::window::{pushed, WINDOW_SIZE};
use vstd::arithmetic::power2::pow2;
use vstd::prelude::*;

verus! {

/// The length that ends a stream.
pub const END_LENGTH: usize = 519;

/// Where the decompressor stands in a stream.
#[derive(Clone, Copy, Debug)]
pub enum ExplodeState {
    /// Before a literal or a back-reference.
    Start,
    /// In the code of the length of a back-reference.
    Length { decoder: Cursor },
    /// Before the extra bits of a length, whose symbol is known.
    LengthExtra { symbol: usize },
    /// In the code of the distance of a back-reference, whose length is
    /// known.
    Distance { len: usize, decoder: Cursor },
    /// Before the extra bits of a distance, whose symbol is known.
    DistanceExtra { len: usize, symbol: usize },
    /// In a back-reference, of which `len` bytes are still to be copied, each
    /// from `dist` bytes back.
    Copy { dist: usize, len: usize },
    /// Before the eight bits of a literal.
    Literal,
    /// In the code of a literal.
    LiteralCoded { decoder: Cursor },
    /// Behind the end of the stream.
    End,
}

/// The least length that each length symbol stands for.
pub open spec fn length_base(symbol: int) -> int {
    if 0 <= symbol < 16 {
        seq![3int, 2, 4, 5, 6, 7, 8, 9, 10, 12, 16, 24, 40, 72, 136, 264][symbol]
    } else {
        0
    }
}

/// The number of extra bits that follow each length symbol.
pub open spec fn length_extra(symbol: int) -> int {
    if 0 <= symbol < 16 {
        seq![0int, 0, 0, 0, 0, 0, 0, 0, 1, 2, 3, 4, 5, 6, 7, 8][symbol]
    } else {
        0
    }
}

/// The decompressor at one moment: its state, the two header fields as far
/// as they were read, the input bits at hand, and the most recent output.
pub struct Machine {
    pub state: ExplodeState,
    pub lit: Option<u8>,
    pub dict: Option<u8>,
    pub input: Bits,
    pub window: Seq<u8>,
}

/// One step of the machine: the machine after it, the byte that it put out,
/// and, where the pass ends with it, how.
pub struct Step {
    pub machine: Machine,
    pub out: Option<u8>,
    pub stop: Option<Result<(), Error>>,
}

/// One pass of the machine: the machine after it, the bytes that it put
/// out, and how it ended.
pub struct Pass {
    pub machine: Machine,
    pub out: Seq<u8>,
    pub result: Result<(), Error>,
}

impl ExplodeState {
    /// Orders the states that can follow each other without a bit read.
    pub open spec fn rank(self) -> int {
        match self {
            ExplodeState::DistanceExtra { .. } => 3,
            ExplodeState::Copy { .. } => 2,
            ExplodeState::LengthExtra { .. } => 2,
            ExplodeState::Start => 1,
            ExplodeState::Distance { .. } => 1,
            _ => 0,
        }
    }

    /// The number of bytes that a back-reference has still to copy.
    pub open spec fn owed(self) -> int {
        match self {
            ExplodeState::Copy { len, .. } => len as int,
            _ => 0,
        }
    }
}

impl Machine {
    /// A machine that has read nothing and awaits its first byte.
    pub open spec fn fresh() -> Machine {
        Machine {
            state: ExplodeState::Start,
            lit: None,
            dict: None,
            input: Bits { value: 0, count: 0, waiting: true },
            window: Seq::empty(),
        }
    }

    /// The machine holds what its state needs.
    pub open spec fn wf(self) -> bool {
        &&& self.input.wf()
        &&& self.window.len() <= WINDOW_SIZE
        &&& self.lit matches Some(flag) ==> flag <= 1
        &&& self.dict matches Some(bits) ==> 4 <= bits <= 6
        &&& self.state is Start || (self.lit is Some && self.dict is Some)
        &&& match self.state {
            ExplodeState::Length { decoder } => decoder.wf(length_code()),
            ExplodeState::LengthExtra { symbol } => symbol < 16,
            ExplodeState::Distance { len, decoder } => len < END_LENGTH && decoder.wf(
                distance_code(),
            ),
            ExplodeState::DistanceExtra { len, symbol } => len < END_LENGTH && symbol < 64,
            ExplodeState::Copy { dist, len } => len < END_LENGTH && (len > 0 ==> 1 <= dist
                <= self.window.len()),
            ExplodeState::LiteralCoded { decoder } => decoder.wf(literal_code()),
            _ => true,
        }
    }

    /// Whether the end of the stream was reached.
    pub open spec fn done(self) -> bool {
        self.state is End
    }

    /// The machine when a byte is offered to it.
    pub open spec fn offered(self, byte: u8) -> Machine {
        Machine { input: self.input.deliver(byte), ..self }
    }

    /// The machine with `by` more bits of input behind those at hand, which
    /// spell `more`.
    pub open spec fn extended(self, more: int, by: int) -> Machine {
        Machine { input: self.input.extend(more, by), ..self }
    }

    /// The machine with no new byte awaited.
    pub open spec fn revived(self) -> Machine {
        Machine { input: self.input.revived(), ..self }
    }

    /// A step that moves on.
    pub open spec fn go(self) -> Step {
        Step { machine: self, out: None, stop: None }
    }

    /// A step that puts out a byte.
    pub open spec fn emit(self, byte: u8) -> Step {
        Step {
            machine: Machine { window: pushed(self.window, byte), ..self },
            out: Some(byte),
            stop: None,
        }
    }

    /// A step that ends the pass.
    pub open spec fn halt(self, result: Result<(), Error>) -> Step {
        Step { machine: self, out: None, stop: Some(result) }
    }

    /// A step that ends the pass for want of input.
    pub open spec fn starve(self) -> Step {
        Machine { input: self.input.starved(), ..self }.halt(Err(Error::IncompleteInput))
    }

    /// The machine with `n` bits read and a new state.
    pub open spec fn read(self, n: int, state: ExplodeState) -> Machine {
        Machine { input: self.input.drop(n), state, ..self }
    }
}

/// Reads the first header byte: whether literals are coded.
pub open spec fn step_literal_flag(m: Machine) -> Step {
    if !m.input.has(8) {
        m.starve()
    } else if m.input.low(8) > 1 {
        m.read(8, m.state).halt(Err(Error::BadLiteralFlag))
    } else {
        Machine { lit: Some(m.input.low(8) as u8), ..m.read(8, m.state) }.go()
    }
}

/// Reads the second header byte: the number of extra bits of a distance.
pub open spec fn step_dictionary(m: Machine) -> Step {
    if !m.input.has(8) {
        m.starve()
    } else if m.input.low(8) < 4 || m.input.low(8) > 6 {
        m.read(8, m.state).halt(Err(Error::BadDictionary))
    } else {
        Machine { dict: Some(m.input.low(8) as u8), ..m.read(8, m.state) }.go()
    }
}

/// Reads the bit that tells a back-reference from a literal.
pub open spec fn step_start(m: Machine) -> Step {
    if !m.input.has(1) {
        m.starve()
    } else if m.input.low(1) > 0 {
        m.read(1, ExplodeState::Length { decoder: Cursor::spec_new() }).go()
    } else if m.lit matches Some(flag) && flag > 0 {
        m.read(1, ExplodeState::LiteralCoded { decoder: Cursor::spec_new() }).go()
    } else {
        m.read(1, ExplodeState::Literal).go()
    }
}

/// Reads the code of a length as far as the bits reach.
pub open spec fn step_length(m: Machine, decoder: Cursor) -> Step {
    let (input, cursor, found) = decode_symbol(m.input, decoder, length_code());
    match found {
        Some(symbol) => Machine {
            input,
            state: ExplodeState::LengthExtra { symbol: symbol as usize },
            ..m
        }.go(),
        None => Machine { input, state: ExplodeState::Length { decoder: cursor }, ..m }.halt(
            Err(Error::IncompleteInput),
        ),
    }
}

/// Reads the extra bits of a length. The greatest length ends the stream.
pub open spec fn step_length_extra(m: Machine, symbol: usize) -> Step {
    let n = length_extra(symbol as int);
    let len = length_base(symbol as int) + m.input.low(n);
    if !m.input.has(n) {
        m.starve()
    } else if len == END_LENGTH {
        m.read(n, ExplodeState::End).go()
    } else {
        m.read(n, ExplodeState::Distance { len: len as usize, decoder: Cursor::spec_new() }).go()
    }
}

/// Reads the code of a distance as far as the bits reach.
pub open spec fn step_distance(m: Machine, len: usize, decoder: Cursor) -> Step {
    let (input, cursor, found) = decode_symbol(m.input, decoder, distance_code());
    match found {
        Some(symbol) => Machine {
            input,
            state: ExplodeState::DistanceExtra { len, symbol: symbol as usize },
            ..m
        }.go(),
        None => Machine {
            input,
            state: ExplodeState::Distance { len, decoder: cursor },
            ..m
        }.halt(Err(Error::IncompleteInput)),
    }
}

/// The number of extra bits of a distance: two for the shortest
/// back-reference, else what the header says.
pub open spec fn distance_extra(m: Machine, len: usize) -> int {
    if len == 2 {
        2
    } else {
        match m.dict {
            Some(bits) => bits as int,
            None => 0,
        }
    }
}

/// Reads the extra bits of a distance, which are its low bits. A distance
/// that reaches back before the bytes in the window is an error.
pub open spec fn step_distance_extra(m: Machine, len: usize, symbol: usize) -> Step {
    let n = distance_extra(m, len);
    let dist = symbol * pow2(n as nat) + m.input.low(n) + 1;
    if !m.input.has(n) {
        m.starve()
    } else if dist > m.window.len() {
        m.read(n, m.state).halt(Err(Error::BadDistance))
    } else {
        m.read(n, ExplodeState::Copy { dist: dist as usize, len }).go()
    }
}

/// Copies one byte of a back-reference, if there is room for it.
pub open spec fn step_copy(m: Machine, full: bool, dist: usize, len: usize) -> Step {
    if len == 0 {
        Machine { state: ExplodeState::Start, ..m }.go()
    } else if full {
        m.halt(Ok(()))
    } else {
        Machine { state: ExplodeState::Copy { dist, len: (len - 1) as usize }, ..m }.emit(
            m.window[m.window.len() - dist],
        )
    }
}

/// Reads a literal of eight bits, if there is room for it.
pub open spec fn step_literal(m: Machine, full: bool) -> Step {
    if full {
        m.halt(Ok(()))
    } else if !m.input.has(8) {
        m.starve()
    } else {
        m.read(8, ExplodeState::Start).emit(m.input.low(8) as u8)
    }
}

/// Reads the code of a literal as far as the bits reach, if there is room
/// for the literal.
pub open spec fn step_literal_coded(m: Machine, full: bool, decoder: Cursor) -> Step {
    let (input, cursor, found) = decode_symbol(m.input, decoder, literal_code());
    if full {
        m.halt(Ok(()))
    } else {
        match found {
            Some(symbol) => Machine { input, state: ExplodeState::Start, ..m }.emit(symbol),
            None => Machine {
                input,
                state: ExplodeState::LiteralCoded { decoder: cursor },
                ..m
            }.halt(Err(Error::IncompleteInput)),
        }
    }
}

/// What the machine does next. `full` says that there is no room for a
/// further byte of output.
#[verifier::opaque]
pub open spec fn step(m: Machine, full: bool) -> Step {
    if m.lit is None {
        step_literal_flag(m)
    } else if m.dict is None {
        step_dictionary(m)
    } else {
        match m.state {
            ExplodeState::Start => step_start(m),
            ExplodeState::Length { decoder } => step_length(m, decoder),
            ExplodeState::LengthExtra { symbol } => step_length_extra(m, symbol),
            ExplodeState::Distance { len, decoder } => step_distance(m, len, decoder),
            ExplodeState::DistanceExtra { len, symbol } => step_distance_extra(m, len, symbol),
            ExplodeState::Copy { dist, len } => step_copy(m, full, dist, len),
            ExplodeState::Literal => step_literal(m, full),
            ExplodeState::LiteralCoded { decoder } => step_literal_coded(m, full, decoder),
            ExplodeState::End => m.halt(Ok(())),
        }
    }
}

/// The room that is left when a step has put out `out`.
pub open spec fn room_after(room: Option<int>, out: Option<u8>) -> Option<int> {
    match (room, out) {
        (Some(left), Some(_)) => Some(left - 1),
        _ => room,
    }
}

/// Whether no room is left.
pub open spec fn is_full(room: Option<int>) -> bool {
    room matches Some(left) && left <= 0
}

/// A pass of the machine `m` with room for `room` bytes of output, or for
/// any number of them: step by step until a step ends it.
pub open spec fn run(m: Machine, room: Option<int>) -> Pass
    decreases m.input.count, m.state.rank(), m.state.owed(),
{
    let taken = step(m, is_full(room));
    match taken.stop {
        Some(result) => Pass { machine: taken.machine, out: Seq::empty(), result },
        None => {
            proof {
                lemma_step_decreases(m, is_full(room));
            }
            let rest = run(taken.machine, room_after(room, taken.out));
            match taken.out {
                Some(byte) => Pass { out: seq![byte] + rest.out, ..rest },
                None => rest,
            }
        },
    }
}

/// The number that the bytes of a stream spell, as bits: the lowest bit of
/// the first byte is the lowest.
pub open spec fn stream_number(data: Seq<u8>) -> int
    decreases data.len(),
{
    if data.len() == 0 {
        0
    } else {
        data[0] + 256 * stream_number(data.drop_first())
    }
}

/// A machine that has the whole of `data` at hand.
pub open spec fn loaded(data: Seq<u8>) -> Machine {
    Machine {
        input: Bits { value: stream_number(data), count: 8 * (data.len() as int), waiting: false },
        ..Machine::fresh()
    }
}

/// What the stream `data` decompresses to: the output of a machine that
/// has all of `data` at hand and room for any output, if it reaches the end
/// of the stream, and else the error that stopped it.
pub open spec fn explode_spec(data: Seq<u8>) -> Result<Seq<u8>, Error> {
    let pass = run(loaded(data), None);
    match pass.result {
        Ok(_) => Ok(pass.out),
        Err(error) => Err(error),
    }
}

} // verus!
