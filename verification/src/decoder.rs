//! Decompression of a block of memory, pass by pass: each pass gets the
//! buffer anew, and a pass that yields nothing is the last.

use crate::engine::Explode;
use crate::error::{Error, Result};
use crate::machine::{explode_spec, loaded, run, stream_number, Pass};
use crate::passes::{
    lemma_done, lemma_extended_wf, lemma_fresh, lemma_resume, lemma_run_progress, lemma_run_wf,
    lemma_starved, lemma_step_room, lemma_supplied_all, lemma_supplied_offered, resumed, supplied,
};
use vstd::prelude::*;

verus! {

/// Decompress a block of `data` in memory, using the given auxiliary
/// buffer `buf`. A buffer without room for a single byte cannot be used: one
/// byte of the function's own then takes its place.
pub fn decode_with_buffer(data: &[u8], buf: &mut [u8]) -> (result: Result<Vec<u8>>)
    ensures
        match explode_spec(data@) {
            Ok(bytes) => result matches Ok(out) && out@ == bytes,
            Err(error) => result matches Err(e) && e == error,
        },
{
    if buf.len() == 0 {
        let mut own: Vec<u8> = vec![0u8; 1];
        decode_in_passes(data, own.as_mut_slice())
    } else {
        decode_in_passes(data, buf)
    }
}

/// Decompresses `data` in passes that each get `buf`, which has room for at
/// least one byte, anew.
fn decode_in_passes(data: &[u8], buf: &mut [u8]) -> (result: Result<Vec<u8>>)
    requires
        old(buf)@.len() > 0,
    ensures
        match explode_spec(data@) {
            Ok(bytes) => result matches Ok(out) && out@ == bytes,
            Err(error) => result matches Err(e) && e == error,
        },
{
    let mut dec = Explode::new();
    let mut i: usize = 0;
    let mut out: Vec<u8> = Vec::with_capacity(buf.len());
    let mut decbuf = dec.with_buffer(buf);
    let ghost whole = run(loaded(data@), None);
    proof {
        lemma_fresh(data@);
        assert(out@ + decbuf.filled() + whole.out =~= whole.out);
    }
    while i < data.len()
        invariant
            after_borrow(dec) == *final(decbuf.parent),
            after_borrow(buf)@ == final(decbuf.buf)@,
            decbuf.wf(),
            decbuf.buf@.len() > 0,
            i <= data@.len(),
            !decbuf.machine().input.waiting ==> i < data@.len() && decbuf.pos == 0,
            decbuf.machine().input.waiting ==> run(decbuf.machine().revived(), None) == (Pass {
                machine: decbuf.machine(),
                out: Seq::empty(),
                result: Err(Error::IncompleteInput),
            }),
            whole == run(loaded(data@), None),
            whole.result == run(supplied(decbuf.machine(), data@, i as int), None).result,
            whole.out == out@ + decbuf.filled() + run(
                supplied(decbuf.machine(), data@, i as int),
                None,
            ).out,
        decreases
                data@.len() - i,
                if decbuf.machine().input.waiting {
                    1int
                } else {
                    0int
                },
                decbuf.machine().input.count,
                decbuf.machine().state.rank(),
                decbuf.machine().state.owed(),
    {
        let ghost before = decbuf.machine();
        let ghost first = before.offered(data@[i as int]);
        let ghost room = decbuf.room();
        let ghost pass = run(first, Some(room));
        let ghost more = stream_number(data@.skip(i + 1));
        let ghost by = 8 * (data@.len() - i - 1);
        proof {
            decbuf.parent.lemma_wf();
            lemma_supplied_offered(before, data@, i as int);
            lemma_resume(first, Some(room), more, by);
            lemma_run_wf(first, Some(room));
            lemma_run_progress(first, Some(room));
            lemma_step_room(first, room <= 0);
            assert(run(supplied(before, data@, i as int), None) == resumed(pass, more, by));
            lemma_extended_wf(pass.machine, more, by);
            if pass.machine.done() {
                lemma_done(pass.machine.extended(more, by), None);
            }
        }
        match decbuf.feed(data[i]) {
            Ok(()) => {
                let decompressed = decbuf.get();
                if decompressed.len() == 0 {
                    // done
                    return Ok(out);
                }
                out.extend_from_slice(decompressed);
                decbuf = dec.with_buffer(buf);
            },
            Err(Error::IncompleteInput) => {
                proof {
                    lemma_starved(first, Some(room));
                }
                i += 1;
            },
            Err(e) => {
                return Err(e);
            },
        }
    }
    proof {
        decbuf.parent.lemma_wf();
        lemma_supplied_all(decbuf.machine(), data@);
    }
    // out of input
    Err(Error::IncompleteInput)
}

/// Decompress a block of `data` in memory, in passes of 4096 bytes.
pub fn decode(data: &[u8]) -> (result: Result<Vec<u8>>)
    ensures
        match explode_spec(data@) {
            Ok(bytes) => result matches Ok(out) && out@ == bytes,
            Err(error) => result matches Err(e) && e == error,
        },
{
    let mut buf: Vec<u8> = vec![0u8; 4096];
    decode_with_buffer(data, buf.as_mut_slice())
}

} // verus!
