//! What holds of the decompression of every stream.

use crate::error::Error;
use crate::machine::{
    distance_extra, explode_spec, is_full, loaded, room_after, run, step, stream_number,
    ExplodeState, Machine, Pass,
};
use crate::passes::{
    lemma_fresh, lemma_resume, lemma_run_wf, lemma_starved, lemma_step_decreases, lemma_step_room,
    lemma_step_wf, lemma_stream_number, lemma_supplied_offered, prepended, supplied,
};
use crate::window::{pushed, WINDOW_SIZE};
use vstd::arithmetic::power2::pow2;
use vstd::prelude::*;

verus! {

/// What comes of offering the bytes of `data` to the machine `m` one by
/// one, each when the machine asks for it, with room for any output. The
/// machine awaits a byte.
pub open spec fn fed(m: Machine, data: Seq<u8>) -> Pass
    decreases data.len(),
{
    if data.len() == 0 {
        Pass { machine: m, out: Seq::empty(), result: Err(Error::IncompleteInput) }
    } else {
        let pass = run(m.offered(data[0]), None);
        if pass.result == Err::<(), Error>(Error::IncompleteInput) {
            prepended(pass.out, fed(pass.machine, data.drop_first()))
        } else {
            pass
        }
    }
}

/// A stream offered byte by byte decompresses to what it decompresses to
/// with all of it at hand: the same output, and the same end.
pub proof fn lemma_bytewise(m: Machine, data: Seq<u8>)
    requires
        m.wf(),
        m.input.waiting,
        run(m.revived(), None) == (Pass {
            machine: m,
            out: Seq::empty(),
            result: Err(Error::IncompleteInput),
        }),
    ensures
        fed(m, data).out == run(supplied(m, data, 0), None).out,
        fed(m, data).result == run(supplied(m, data, 0), None).result,
    decreases data.len(),
{
    assert(data.skip(0) =~= data);
    if data.len() == 0 {
        vstd::arithmetic::power2::lemma2_to64();
        assert(supplied(m, data, 0) == m.revived());
    } else {
        let first = m.offered(data[0]);
        let rest = data.drop_first();
        let more = stream_number(data.skip(1));
        let by = 8 * (data.len() - 1);
        let pass = run(first, None);
        assert(data.skip(1) =~= rest);
        assert(rest.skip(0) =~= rest);
        lemma_supplied_offered(m, data, 0);
        lemma_resume(first, None, more, by);
        lemma_run_wf(first, None);
        if pass.result == Err::<(), Error>(Error::IncompleteInput) {
            lemma_starved(first, None);
            lemma_bytewise(pass.machine, rest);
        }
    }
}

/// Decompressing a stream byte by byte, from a fresh machine, gives what
/// the stream decompresses to.
pub proof fn lemma_bytewise_is_whole(data: Seq<u8>)
    ensures
        explode_spec(data) == match fed(Machine::fresh(), data).result {
            Ok(_) => Ok::<Seq<u8>, Error>(fed(Machine::fresh(), data).out),
            Err(error) => Err::<Seq<u8>, Error>(error),
        },
{
    lemma_fresh(data);
    lemma_bytewise(Machine::fresh(), data);
}

/// The room for output is no matter: a pass that ends because there is no
/// room left, and is taken up again with room, puts out what the pass with
/// room for any output puts out; a pass that ends otherwise is that pass.
pub proof fn lemma_room_is_no_matter(m: Machine, room: Option<int>)
    requires
        m.wf(),
        !m.input.waiting,
    ensures
        run(m, None) == if run(m, room).result is Ok && !run(m, room).machine.done() {
            prepended(run(m, room).out, run(run(m, room).machine, None))
        } else {
            run(m, room)
        },
{
    let pass = run(m, room);
    vstd::arithmetic::power2::lemma2_to64();
    lemma_resume(m, room, 0, 0);
    lemma_run_wf(m, room);
    assert(m.extended(0, 0) == m);
    assert(pass.machine.extended(0, 0) == pass.machine);
    if pass.result == Err::<(), Error>(Error::IncompleteInput) {
        lemma_starved(m, room);
        assert(pass.machine.revived().extended(0, 0) == pass.machine.revived());
        assert(pass.out + Seq::<u8>::empty() =~= pass.out);
    }
}

/// The number that two streams spell, one behind the other.
pub proof fn lemma_stream_number_add(data: Seq<u8>, more: Seq<u8>)
    ensures
        stream_number(data + more) == stream_number(data) + stream_number(more) * pow2(
            (8 * data.len()) as nat,
        ),
    decreases data.len(),
{
    vstd::arithmetic::power2::lemma2_to64();
    if data.len() == 0 {
        assert(data + more =~= more);
        assert(stream_number(more) * pow2(0) == stream_number(more));
    } else {
        let rest = data.drop_first();
        assert((data + more).drop_first() =~= rest + more);
        assert((data + more)[0] == data[0]);
        lemma_stream_number_add(rest, more);
        vstd::arithmetic::power2::lemma_pow2_adds(8, (8 * rest.len()) as nat);
        let high = stream_number(more);
        let unit = pow2((8 * rest.len()) as nat) as int;
        assert((8 + 8 * rest.len()) as nat == (8 * data.len()) as nat);
        assert(pow2((8 * data.len()) as nat) == 256 * unit);
        assert(256 * (high * unit) == high * (256 * unit)) by (nonlinear_arith);
    }
}

/// Bytes behind a stream change nothing, unless the stream is incomplete:
/// a stream that decompresses to the end, or fails otherwise than for want
/// of input, does the same with any bytes behind it. So a stream that
/// decompresses to the end, cut short, either does so still and to the same
/// output, or is incomplete.
pub proof fn lemma_trailing_bytes(data: Seq<u8>, more: Seq<u8>)
    ensures
        explode_spec(data) != Err::<Seq<u8>, Error>(Error::IncompleteInput) ==> explode_spec(
            data + more,
        ) == explode_spec(data),
        explode_spec(data + more) is Ok ==> explode_spec(data) == explode_spec(data + more)
            || explode_spec(data) == Err::<Seq<u8>, Error>(Error::IncompleteInput),
{
    let short = loaded(data);
    let high = stream_number(more);
    let by = 8 * (more.len() as int);
    lemma_fresh(data);
    lemma_stream_number(data);
    lemma_stream_number(more);
    lemma_stream_number_add(data, more);
    assert(short.wf()) by {
        assert(short.input.wf());
    }
    assert(loaded(data + more) == short.extended(high, by));
    lemma_resume(short, None, high, by);
    lemma_run_wf(short, None);
}

/// The first eight bits of a stream are its first byte, and the rest of the
/// stream follows them.
proof fn lemma_first_byte(data: Seq<u8>)
    requires
        data.len() >= 1,
    ensures
        loaded(data).input.has(8),
        loaded(data).input.low(8) == data[0],
        loaded(data).input.drop(8) == loaded(data.drop_first()).input,
{
    vstd::arithmetic::power2::lemma2_to64();
    lemma_stream_number(data);
    lemma_stream_number(data.drop_first());
    let rest = stream_number(data.drop_first());
    assert(stream_number(data) == data[0] + 256 * rest);
    assert(pow2(8) == 256);
    assert((data[0] + 256 * rest) % 256 == data[0]);
    assert((data[0] + 256 * rest) / 256 == rest);
}

/// A first byte that is neither 0 nor 1 is an invalid literal flag,
/// whatever follows; a second byte that is not 4, 5 or 6 is an invalid
/// dictionary size, whatever follows; and a stream without these two bytes
/// is incomplete.
pub proof fn lemma_bad_header(data: Seq<u8>)
    ensures
        data.len() >= 1 && data[0] > 1 ==> explode_spec(data) == Err::<Seq<u8>, Error>(
            Error::BadLiteralFlag,
        ),
        data.len() >= 2 && data[0] <= 1 && !(4 <= data[1] <= 6) ==> explode_spec(data) == Err::<
            Seq<u8>,
            Error,
        >(Error::BadDictionary),
        data.len() < 2 && !(data.len() == 1 && data[0] > 1) ==> explode_spec(data) == Err::<
            Seq<u8>,
            Error,
        >(Error::IncompleteInput),
{
    let first = loaded(data);
    if data.len() == 0 {
        assert(step(first, false).stop == Some(Err::<(), Error>(Error::IncompleteInput))) by {
            reveal(step);
        }
    } else {
        let rest = data.drop_first();
        lemma_first_byte(data);
        if data[0] > 1 {
            assert(step(first, false).stop == Some(Err::<(), Error>(Error::BadLiteralFlag))) by {
                reveal(step);
            }
        } else {
            let second = Machine { lit: Some(data[0]), ..loaded(rest) };
            assert(step(first, false) == second.go()) by {
                reveal(step);
            }
            assert(run(first, None) == run(second, None));
            if rest.len() == 0 {
                assert(step(second, false).stop == Some(
                    Err::<(), Error>(Error::IncompleteInput),
                )) by {
                    reveal(step);
                }
            } else {
                lemma_first_byte(rest);
                assert(rest[0] == data[1]);
                if !(4 <= data[1] <= 6) {
                    assert(step(second, false).stop == Some(
                        Err::<(), Error>(Error::BadDictionary),
                    )) by {
                        reveal(step);
                    }
                }
            }
        }
    }
}

/// A back-reference whose distance reaches back before the bytes that the
/// window holds ends the pass with the distance error, and nothing is put
/// out for it.
pub proof fn lemma_bad_distance(m: Machine, room: Option<int>)
    requires
        m.lit is Some,
        m.dict is Some,
        m.state matches ExplodeState::DistanceExtra { len, symbol } && m.input.has(
            distance_extra(m, len),
        ) && symbol * pow2(distance_extra(m, len) as nat) + m.input.low(distance_extra(m, len))
            + 1 > m.window.len(),
    ensures
        run(m, room).result == Err::<(), Error>(Error::BadDistance),
        run(m, room).out == Seq::<u8>::empty(),
{
    reveal(step);
}

/// The most recent bytes of `history`, as many as the window holds.
pub open spec fn recent(history: Seq<u8>) -> Seq<u8> {
    if history.len() <= WINDOW_SIZE {
        history
    } else {
        history.skip(history.len() - WINDOW_SIZE)
    }
}

/// The window holds the most recent output: after a pass, the bytes that
/// it held before and the output of the pass, as far as they fit.
pub proof fn lemma_window_is_recent(m: Machine, room: Option<int>)
    requires
        m.wf(),
    ensures
        run(m, room).machine.window == recent(m.window + run(m, room).out),
    decreases m.input.count, m.state.rank(), m.state.owed(),
{
    let full = is_full(room);
    let taken = step(m, full);
    lemma_step_wf(m, full);
    lemma_step_decreases(m, full);
    lemma_step_room(m, full);
    lemma_step_window(m, full);
    if taken.stop is None {
        let rest = run(taken.machine, room_after(room, taken.out));
        lemma_window_is_recent(taken.machine, room_after(room, taken.out));
        match taken.out {
            Some(byte) => {
                let all = m.window + (seq![byte] + rest.out);
                let next = pushed(m.window, byte) + rest.out;
                if m.window.len() < WINDOW_SIZE {
                    assert(next =~= all);
                } else {
                    assert(all.len() == next.len() + 1);
                    assert(next =~= all.skip(1));
                    assert(recent(next) =~= recent(all));
                }
                assert(run(m, room).out == seq![byte] + rest.out);
                assert(run(m, room).machine.window == recent(all));
            },
            None => {
                assert(run(m, room).out == rest.out);
                assert(taken.machine.window == m.window);
            },
        }
    } else {
        assert(m.window + Seq::<u8>::empty() =~= m.window);
        assert(run(m, room).out == Seq::<u8>::empty());
        assert(run(m, room).machine.window == m.window);
    }
}

/// A step changes the window only by the byte that it puts out.
pub proof fn lemma_step_window(m: Machine, full: bool)
    ensures
        step(m, full).machine.window == match step(m, full).out {
            Some(byte) => pushed(m.window, byte),
            None => m.window,
        },
{
    reveal(step);
}

} // verus!
