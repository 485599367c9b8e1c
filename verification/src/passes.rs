//! What holds of the steps and the passes of the machine: that they leave it
//! in order, that they come to an end, and that a pass can be taken up
//! again, with more input or more room, without a change to what comes of
//! it.

use crate::codes::Cursor;
use crate::error::Error;
use crate::input::{
    lemma_decode_bounds, lemma_decode_consumes, lemma_decode_extend, lemma_decode_symbol,
    lemma_deliver_extend, lemma_drop, lemma_extend,
};
use crate::machine::{
    distance_extra, is_full, length_extra, loaded, room_after, run, step, stream_number,
    ExplodeState, Machine, Pass, Step,
};
use crate::tables::{
    distance_code, distance_symbols, lemma_distance_complete, lemma_length_complete,
    lemma_literal_complete, length_code, length_symbols, literal_code,
};
use vstd::arithmetic::power2::pow2;
use vstd::prelude::*;

verus! {

/// A pass with the output `out` before its own.
pub open spec fn prepended(out: Seq<u8>, pass: Pass) -> Pass {
    Pass { out: out + pass.out, ..pass }
}

/// What a step comes to when `by` more bits of input, which spell `more`,
/// arrive behind the bits at hand: the same, if it had the bits it needed;
/// the step from where it stopped, if it ended the pass for want of input.
pub open spec fn extends(m: Machine, full: bool, more: int, by: int) -> bool {
    if step(m, full).stop == Some(Err::<(), Error>(Error::IncompleteInput)) {
        step(m.extended(more, by), full) == step(
            step(m, full).machine.revived().extended(more, by),
            full,
        )
    } else {
        step(m.extended(more, by), full) == (Step {
            machine: step(m, full).machine.extended(more, by),
            ..step(m, full)
        })
    }
}

/// How the pass `pass` goes on once `by` more bits of input, which spell
/// `more`, have arrived behind the bits at hand, and there is room for any
/// output: from where it ended, if that was for want of input or of room;
/// not at all, if it ended otherwise.
pub open spec fn resumed(pass: Pass, more: int, by: int) -> Pass {
    if pass.result == Err::<(), Error>(Error::IncompleteInput) {
        prepended(pass.out, run(pass.machine.revived().extended(more, by), None))
    } else if pass.result is Ok && !pass.machine.done() {
        prepended(pass.out, run(pass.machine.extended(more, by), None))
    } else {
        Pass { machine: pass.machine.extended(more, by), ..pass }
    }
}

/// The machine `m`, to which the bytes of `data` before `at` were offered
/// in turn, with the rest of `data` at hand at once. Where no byte is
/// awaited, the byte at `at` was taken in already.
pub open spec fn supplied(m: Machine, data: Seq<u8>, at: int) -> Machine {
    if m.input.waiting {
        m.revived().extended(stream_number(data.skip(at)), 8 * (data.len() - at))
    } else {
        m.extended(stream_number(data.skip(at + 1)), 8 * (data.len() - at - 1))
    }
}

impl Machine {
    /// Whether the machine is no farther than `other` from the end of what
    /// its input allows: it has fewer bits to read, or as many and a state
    /// of lower rank, or that too alike and no more bytes to copy.
    pub open spec fn within(self, other: Machine) -> bool {
        ||| self.input.count < other.input.count
        ||| self.input.count == other.input.count && self.state.rank() < other.state.rank()
        ||| self.input.count == other.input.count && self.state.rank() == other.state.rank()
            && self.state.owed() <= other.state.owed()
    }

    /// Whether the machine is nearer than `other` to the end of what its
    /// input allows.
    pub open spec fn nearer(self, other: Machine) -> bool {
        ||| self.input.count < other.input.count
        ||| self.input.count == other.input.count && self.state.rank() < other.state.rank()
        ||| self.input.count == other.input.count && self.state.rank() == other.state.rank()
            && self.state.owed() < other.state.owed()
    }
}

/// A step that does not end the pass reads a bit, or leads to a state of
/// lower rank, or copies a byte that was owed.
pub proof fn lemma_step_decreases(m: Machine, full: bool)
    ensures
        step(m, full).stop is None ==> {
            let next = step(m, full).machine;
            ||| 0 <= next.input.count < m.input.count
            ||| next.input.count == m.input.count && 0 <= next.state.rank() < m.state.rank()
            ||| next.input.count == m.input.count && next.state.rank() == m.state.rank() && 0
                <= next.state.owed() < m.state.owed()
        },
{
    reveal(step);
    match m.state {
        ExplodeState::Length { decoder } => {
            lemma_decode_consumes(m.input, decoder, length_code());
        },
        ExplodeState::Distance { decoder, .. } => {
            lemma_decode_consumes(m.input, decoder, distance_code());
        },
        ExplodeState::LiteralCoded { decoder } => {
            lemma_decode_consumes(m.input, decoder, literal_code());
        },
        _ => {},
    }
}

/// The symbols of the two tables for back-references are small.
pub proof fn lemma_symbol_ranges()
    ensures
        forall|at: int| 0 <= at < 16 ==> #[trigger] length_symbols()[at] < 16,
        forall|at: int| 0 <= at < 64 ==> #[trigger] distance_symbols()[at] < 64,
        length_symbols().len() == 16,
        distance_symbols().len() == 64,
{
}

/// A step leaves the machine in order. It asks for a new byte only where
/// it ends the pass for want of input.
pub proof fn lemma_step_wf(m: Machine, full: bool)
    requires
        m.wf(),
    ensures
        step(m, full).machine.wf(),
        step(m, full).stop is None ==> step(m, full).machine.input.waiting == m.input.waiting,
        step(m, full).stop == Some(Err::<(), Error>(Error::IncompleteInput)) ==> step(
            m,
            full,
        ).machine.input.waiting,
{
    reveal(step);
    lemma_symbol_ranges();
    lemma_length_complete();
    lemma_distance_complete();
    lemma_literal_complete();
    vstd::arithmetic::power2::lemma2_to64();
    if m.lit is None || m.dict is None {
        if m.input.has(8) {
            lemma_drop(m.input, 8);
        }
    } else {
        match m.state {
            ExplodeState::Start => {
                if m.input.has(1) {
                    lemma_drop(m.input, 1);
                    Cursor::lemma_new_at(length_code());
                    Cursor::lemma_new_at(literal_code());
                }
            },
            ExplodeState::Length { decoder } => {
                lemma_decode_symbol(m.input, decoder, length_code());
            },
            ExplodeState::LengthExtra { symbol } => {
                let n = length_extra(symbol as int);
                if m.input.has(n) {
                    lemma_drop(m.input, n);
                    Cursor::lemma_new_at(distance_code());
                }
            },
            ExplodeState::Distance { len, decoder } => {
                lemma_decode_symbol(m.input, decoder, distance_code());
            },
            ExplodeState::DistanceExtra { len, symbol } => {
                let n = distance_extra(m, len);
                if m.input.has(n) {
                    lemma_drop(m.input, n);
                    assert(0 <= symbol * pow2(n as nat)) by (nonlinear_arith)
                        requires
                            0 <= symbol,
                            0 <= pow2(n as nat),
                    ;
                }
            },
            ExplodeState::Literal => {
                if m.input.has(8) {
                    lemma_drop(m.input, 8);
                }
            },
            ExplodeState::LiteralCoded { decoder } => {
                lemma_decode_symbol(m.input, decoder, literal_code());
            },
            _ => {},
        }
    }
}

/// A step that does not end the pass does not depend on the room.
pub proof fn lemma_step_room(m: Machine, full: bool)
    ensures
        step(m, full).stop is None ==> step(m, false) == step(m, full),
        step(m, full).stop matches Some(result) && result is Err ==> step(m, false) == step(
            m,
            full,
        ),
        step(m, full).stop matches Some(result) && result is Ok ==> step(m, full).machine == m
            && (m.done() || full) && step(m, full).stop == Some(Ok::<(), Error>(())),
        step(m, full).out is Some ==> !full && step(m, full).stop is None,
        m.done() ==> step(m, false) == step(m, full),
{
    reveal(step);
}

/// Further input and the steps that read the header.
proof fn lemma_extend_header(m: Machine, full: bool, more: int, by: int)
    requires
        m.wf(),
        !m.input.waiting,
        0 <= by,
        0 <= more < pow2(by as nat),
        m.lit is None || m.dict is None,
    ensures
        extends(m, full, more, by),
{
    reveal(step);
    lemma_extend(m.input, more, by, 0);
    assert(m.input.starved().revived() == m.input);
    if m.input.has(8) {
        lemma_extend(m.input, more, by, 8);
    }
}

/// Further input and the step that tells a back-reference from a literal.
proof fn lemma_extend_start(m: Machine, full: bool, more: int, by: int)
    requires
        m.wf(),
        !m.input.waiting,
        0 <= by,
        0 <= more < pow2(by as nat),
        m.lit is Some,
        m.dict is Some,
        m.state is Start,
    ensures
        extends(m, full, more, by),
{
    reveal(step);
    lemma_extend(m.input, more, by, 0);
    assert(m.input.starved().revived() == m.input);
    let n = 1int;
    if m.input.has(n) {
        lemma_extend(m.input, more, by, n);
    }
}

/// Further input and the step that reads the extra bits of a length.
proof fn lemma_extend_length_extra(m: Machine, full: bool, more: int, by: int)
    requires
        m.wf(),
        !m.input.waiting,
        0 <= by,
        0 <= more < pow2(by as nat),
        m.lit is Some,
        m.dict is Some,
        m.state is LengthExtra,
    ensures
        extends(m, full, more, by),
{
    reveal(step);
    lemma_extend(m.input, more, by, 0);
    assert(m.input.starved().revived() == m.input);
    let n = length_extra(m.state->LengthExtra_symbol as int);
    if m.input.has(n) {
        lemma_extend(m.input, more, by, n);
    }
}

/// Further input and the step that reads the extra bits of a distance.
proof fn lemma_extend_distance_extra(m: Machine, full: bool, more: int, by: int)
    requires
        m.wf(),
        !m.input.waiting,
        0 <= by,
        0 <= more < pow2(by as nat),
        m.lit is Some,
        m.dict is Some,
        m.state is DistanceExtra,
    ensures
        extends(m, full, more, by),
{
    reveal(step);
    lemma_extend(m.input, more, by, 0);
    assert(m.input.starved().revived() == m.input);
    let n = distance_extra(m, m.state->DistanceExtra_len);
    if m.input.has(n) {
        lemma_extend(m.input, more, by, n);
    }
}

/// Further input and the step that reads a literal of eight bits.
proof fn lemma_extend_literal(m: Machine, full: bool, more: int, by: int)
    requires
        m.wf(),
        !m.input.waiting,
        0 <= by,
        0 <= more < pow2(by as nat),
        m.lit is Some,
        m.dict is Some,
        m.state is Literal,
    ensures
        extends(m, full, more, by),
{
    reveal(step);
    lemma_extend(m.input, more, by, 0);
    assert(m.input.starved().revived() == m.input);
    let n = 8int;
    if m.input.has(n) {
        lemma_extend(m.input, more, by, n);
    }
}

/// Further input and the steps that read a code.
proof fn lemma_extend_decodes(m: Machine, full: bool, more: int, by: int)
    requires
        m.wf(),
        !m.input.waiting,
        0 <= by,
        0 <= more < pow2(by as nat),
        m.lit is Some,
        m.dict is Some,
        m.state is Length || m.state is Distance || m.state is LiteralCoded,
    ensures
        extends(m, full, more, by),
{
    reveal(step);
    lemma_extend(m.input, more, by, 0);
    match m.state {
        ExplodeState::Length { decoder } => {
            lemma_length_complete();
            lemma_decode_extend(m.input, decoder, length_code(), more, by);
        },
        ExplodeState::Distance { len, decoder } => {
            lemma_distance_complete();
            lemma_decode_extend(m.input, decoder, distance_code(), more, by);
        },
        ExplodeState::LiteralCoded { decoder } => {
            lemma_literal_complete();
            lemma_decode_extend(m.input, decoder, literal_code(), more, by);
        },
        _ => {},
    }
}

/// Further input and the steps that read nothing.
proof fn lemma_extend_others(m: Machine, full: bool, more: int, by: int)
    requires
        m.wf(),
        !m.input.waiting,
        0 <= by,
        0 <= more < pow2(by as nat),
        m.lit is Some,
        m.dict is Some,
        m.state is Copy || m.state is End,
    ensures
        extends(m, full, more, by),
{
    reveal(step);
}

/// Input that arrives behind the bits at hand changes nothing of a step
/// that had the bits it needed. A step that ended the pass for want of
/// input is taken again from where it stopped.
pub proof fn lemma_step_extend(m: Machine, full: bool, more: int, by: int)
    requires
        m.wf(),
        !m.input.waiting,
        0 <= by,
        0 <= more < pow2(by as nat),
    ensures
        m.extended(more, by).wf(),
        extends(m, full, more, by),
{
    lemma_extended_wf(m, more, by);
    if m.lit is None || m.dict is None {
        lemma_extend_header(m, full, more, by);
    } else if m.state is Length || m.state is Distance || m.state is LiteralCoded {
        lemma_extend_decodes(m, full, more, by);
    } else if m.state is Copy || m.state is End {
        lemma_extend_others(m, full, more, by);
    } else if m.state is Start {
        lemma_extend_start(m, full, more, by);
    } else if m.state is LengthExtra {
        lemma_extend_length_extra(m, full, more, by);
    } else if m.state is DistanceExtra {
        lemma_extend_distance_extra(m, full, more, by);
    } else {
        lemma_extend_literal(m, full, more, by);
    }
}

/// Input that arrives behind the bits at hand leaves the machine in order.
pub proof fn lemma_extended_wf(m: Machine, more: int, by: int)
    requires
        m.wf(),
        0 <= by,
        0 <= more < pow2(by as nat),
    ensures
        m.extended(more, by).wf(),
{
    lemma_extend(m.input, more, by, 0);
}

/// A pass leaves the machine in order.
pub proof fn lemma_run_wf(m: Machine, room: Option<int>)
    requires
        m.wf(),
    ensures
        run(m, room).machine.wf(),
        run(m, room).result == Err::<(), Error>(Error::IncompleteInput) ==> run(
            m,
            room,
        ).machine.input.waiting,
        run(m, room).result is Ok && !m.input.waiting ==> !run(m, room).machine.input.waiting,
        room is None && run(m, room).result is Ok ==> run(m, room).machine.done(),
        run(m, room).result is Ok ==> run(m, room).result == Ok::<(), Error>(()),
        room matches Some(left) ==> (left >= 0 ==> run(m, room).out.len() <= left),
        room matches Some(left) ==> (left >= 0 && run(m, room).result is Ok && !run(
            m,
            room,
        ).machine.done() ==> run(m, room).out.len() == left),
    decreases m.input.count, m.state.rank(), m.state.owed(),
{
    let full = is_full(room);
    lemma_step_wf(m, full);
    lemma_step_decreases(m, full);
    lemma_step_room(m, full);
    if step(m, full).stop is None {
        lemma_run_wf(step(m, full).machine, room_after(room, step(m, full).out));
    }
}

/// Behind the end of the stream a pass does nothing.
pub proof fn lemma_done(m: Machine, room: Option<int>)
    requires
        m.wf(),
        m.done(),
    ensures
        run(m, room) == (Pass { machine: m, out: Seq::empty(), result: Ok(()) }),
{
    reveal(step);
}

/// The whole of a stream at once, or piece by piece: a pass over the bits at
/// hand, whatever room it has, is the beginning of the pass that has further
/// input behind those bits and room for any output.
pub proof fn lemma_resume(m: Machine, room: Option<int>, more: int, by: int)
    requires
        m.wf(),
        !m.input.waiting,
        0 <= by,
        0 <= more < pow2(by as nat),
    ensures
        run(m.extended(more, by), None) == resumed(run(m, room), more, by),
    decreases m.input.count, m.state.rank(), m.state.owed(),
{
    let full = is_full(room);
    let taken = step(m, full);
    let wide = m.extended(more, by);
    lemma_step_wf(m, full);
    lemma_step_decreases(m, full);
    lemma_step_room(m, full);
    lemma_step_extend(m, full, more, by);
    lemma_step_extend(m, false, more, by);
    if taken.stop is None {
        // the step is the same with the further input; the rest by induction
        let after = room_after(room, taken.out);
        let short = run(taken.machine, after);
        lemma_resume(taken.machine, after, more, by);
        if taken.out is Some {
            let first = seq![taken.out->0];
            if short.result == Err::<(), Error>(Error::IncompleteInput) {
                let rest = run(short.machine.revived().extended(more, by), None);
                assert(first + (short.out + rest.out) =~= (first + short.out) + rest.out);
            } else if short.result is Ok && !short.machine.done() {
                let rest = run(short.machine.extended(more, by), None);
                assert(first + (short.out + rest.out) =~= (first + short.out) + rest.out);
            }
        }
    } else if taken.stop == Some(Err::<(), Error>(Error::IncompleteInput)) {
        // with the further input the step is taken again
        let again = taken.machine.revived().extended(more, by);
        assert(run(wide, None) == run(again, None));
        assert(Seq::<u8>::empty() + run(again, None).out =~= run(again, None).out);
    } else if taken.stop->0 is Ok && !taken.machine.done() {
        // there was no room: with room the step is taken again
        assert(Seq::<u8>::empty() + run(wide, None).out =~= run(wide, None).out);
    }
}

/// A pass that ended for want of input, taken up again without new input,
/// ends for want of input at once.
pub proof fn lemma_starved(m: Machine, room: Option<int>)
    requires
        m.wf(),
        !m.input.waiting,
        run(m, room).result == Err::<(), Error>(Error::IncompleteInput),
    ensures
        run(run(m, room).machine.revived(), None) == (Pass {
            machine: run(m, room).machine,
            out: Seq::empty(),
            result: Err(Error::IncompleteInput),
        }),
    decreases m.input.count, m.state.rank(), m.state.owed(),
{
    let full = is_full(room);
    let taken = step(m, full);
    lemma_step_wf(m, full);
    lemma_step_decreases(m, full);
    lemma_step_room(m, full);
    match taken.stop {
        None => {
            lemma_starved(taken.machine, room_after(room, taken.out));
        },
        Some(result) => {
            vstd::arithmetic::power2::lemma2_to64();
            lemma_step_extend(m, full, 0, 0);
            assert(m.extended(0, 0) == m);
            let again = taken.machine.revived();
            assert(again.extended(0, 0) == again);
            assert(step(again, full) == taken);
            lemma_step_room(again, full);
        },
    }
}

/// The number that a stream spells has eight bits for each byte.
pub proof fn lemma_stream_number(data: Seq<u8>)
    ensures
        0 <= stream_number(data) < pow2((8 * data.len()) as nat),
    decreases data.len(),
{
    vstd::arithmetic::power2::lemma2_to64();
    if data.len() > 0 {
        lemma_stream_number(data.drop_first());
        vstd::arithmetic::power2::lemma_pow2_adds(8, (8 * data.drop_first().len()) as nat);
    }
}

/// A fresh machine with a stream at hand at once is the machine that
/// decompresses the stream. Without input it ends its pass at once.
pub proof fn lemma_fresh(data: Seq<u8>)
    ensures
        Machine::fresh().wf(),
        supplied(Machine::fresh(), data, 0) == loaded(data),
        run(Machine::fresh().revived(), None) == (Pass {
            machine: Machine::fresh(),
            out: Seq::empty(),
            result: Err(Error::IncompleteInput),
        }),
{
    vstd::arithmetic::power2::lemma2_to64();
    assert(data.skip(0) =~= data);
    assert(stream_number(data) * pow2(0) == stream_number(data));
    assert(supplied(Machine::fresh(), data, 0).input == loaded(data).input);
    assert(step(Machine::fresh().revived(), false) == Machine::fresh().revived().starve()) by {
        reveal(step);
    }
    assert(Machine::fresh().revived().starve().machine == Machine::fresh());
}

/// Offering the next byte of a stream changes nothing of the machine that
/// has the rest of the stream at hand.
pub proof fn lemma_supplied_offered(m: Machine, data: Seq<u8>, at: int)
    requires
        m.wf(),
        0 <= at < data.len(),
    ensures
        m.offered(data[at]).wf(),
        !m.offered(data[at]).input.waiting,
        supplied(m, data, at) == m.offered(data[at]).extended(
            stream_number(data.skip(at + 1)),
            8 * (data.len() - at - 1),
        ),
        0 <= stream_number(data.skip(at + 1)) < pow2((8 * (data.len() - at - 1)) as nat),
{
    let rest = data.skip(at + 1);
    lemma_stream_number(rest);
    assert(data.skip(at).drop_first() =~= rest);
    if m.input.waiting {
        lemma_deliver_extend(m.input, data[at], stream_number(rest), 8 * (data.len() - at - 1));
    }
}

/// With the whole stream offered and a new byte awaited, nothing is at hand
/// but what the machine holds.
pub proof fn lemma_supplied_all(m: Machine, data: Seq<u8>)
    requires
        m.wf(),
        m.input.waiting,
    ensures
        supplied(m, data, data.len() as int) == m.revived(),
{
    vstd::arithmetic::power2::lemma2_to64();
    assert(data.skip(data.len() as int) =~= Seq::<u8>::empty());
}

/// A step that ends the pass leaves the machine no farther from the end of
/// what its input allows.
pub proof fn lemma_stop_within(m: Machine, full: bool)
    requires
        0 <= m.input.count,
    ensures
        step(m, full).stop is Some ==> step(m, full).machine.within(m) && 0 <= step(
            m,
            full,
        ).machine.input.count,
{
    reveal(step);
    match m.state {
        ExplodeState::Length { decoder } => {
            lemma_decode_bounds(m.input, decoder, length_code());
        },
        ExplodeState::Distance { decoder, .. } => {
            lemma_decode_bounds(m.input, decoder, distance_code());
        },
        ExplodeState::LiteralCoded { decoder } => {
            lemma_decode_bounds(m.input, decoder, literal_code());
        },
        _ => {},
    }
}

/// A pass leaves the machine no farther from the end of what its input
/// allows, and nearer to it if it took a step that did not end it.
pub proof fn lemma_run_progress(m: Machine, room: Option<int>)
    requires
        0 <= m.input.count,
    ensures
        run(m, room).machine.within(m),
        step(m, is_full(room)).stop is None ==> run(m, room).machine.nearer(m),
        0 <= run(m, room).machine.input.count,
    decreases m.input.count, m.state.rank(), m.state.owed(),
{
    let full = is_full(room);
    lemma_step_decreases(m, full);
    lemma_stop_within(m, full);
    if step(m, full).stop is None {
        lemma_run_progress(step(m, full).machine, room_after(room, step(m, full).out));
    }
}

} // verus!
