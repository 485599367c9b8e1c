//! The bounded history of output bytes that back-references read from.

use arraydeque::{ArrayDeque, Wrapping};
use vstd::prelude::*;

verus! {

/// The number of bytes that the window holds at most.
pub const WINDOW_SIZE: usize = 4096;

/// The ring buffer that stores the history: an `arraydeque::ArrayDeque` of
/// 4096 bytes with the `Wrapping` behavior. Verus does not look inside.
#[verifier::external_body]
#[derive(Debug)]
pub struct Ring {
    deque: ArrayDeque<[u8; 4096], Wrapping>,
}

/// The bytes that a ring holds, from the front, which is the oldest, to the
/// back.
pub uninterp spec fn ring_bytes(ring: Ring) -> Seq<u8>;

/// `ArrayDeque::new`: the new ring holds nothing.
#[verifier::external_body]
fn ring_new() -> (ring: Ring)
    ensures
        ring_bytes(ring) == Seq::<u8>::empty(),
{
    Ring { deque: ArrayDeque::new() }
}

/// `ArrayDeque::len`: the number of bytes held.
#[verifier::external_body]
fn ring_len(ring: &Ring) -> (len: usize)
    ensures
        len == ring_bytes(*ring).len(),
{
    ring.deque.len()
}

/// `ArrayDeque::index`: the byte at `index`, counted from the front. Past the
/// end it panics, so such an index is not admitted.
#[verifier::external_body]
fn ring_get(ring: &Ring, index: usize) -> (byte: u8)
    requires
        index < ring_bytes(*ring).len(),
    ensures
        byte == ring_bytes(*ring)[index as int],
{
    ring.deque[index]
}

/// `ArrayDeque::push_back` with the `Wrapping` behavior: the byte is added at
/// the back, and a ring that already held 4096 bytes first gives up the byte
/// at its front.
#[verifier::external_body]
fn ring_push(ring: &mut Ring, byte: u8)
    ensures
        ring_bytes(*final(ring)) == pushed(ring_bytes(*old(ring)), byte),
{
    ring.deque.push_back(byte);
}

/// The history after one more byte: the byte is added at the end, and a full
/// history loses its oldest byte.
pub open spec fn pushed(history: Seq<u8>, byte: u8) -> Seq<u8> {
    if history.len() < WINDOW_SIZE {
        history.push(byte)
    } else {
        history.drop_first().push(byte)
    }
}

/// The most recent output bytes, at most 4096 of them, oldest first.
#[derive(Debug)]
pub struct SlidingWindow {
    ring: Ring,
}

impl View for SlidingWindow {
    type V = Seq<u8>;

    closed spec fn view(&self) -> Seq<u8> {
        ring_bytes(self.ring)
    }
}

impl SlidingWindow {
    /// The window holds no more than its size.
    pub open spec fn wf(&self) -> bool {
        self@.len() <= WINDOW_SIZE
    }

    /// An empty window.
    pub fn new() -> (window: Self)
        ensures
            window.wf(),
            window@ == Seq::<u8>::empty(),
    {
        SlidingWindow { ring: ring_new() }
    }

    /// The number of bytes held.
    pub fn len(&self) -> (len: usize)
        ensures
            len == self@.len(),
    {
        ring_len(&self.ring)
    }

    /// The byte that lies `distance` bytes back from the end of the history;
    /// the most recent byte is at distance 1.
    pub fn back(&self, distance: usize) -> (byte: u8)
        requires
            1 <= distance <= self@.len(),
        ensures
            byte == self@[self@.len() - distance],
    {
        let len = ring_len(&self.ring);
        ring_get(&self.ring, len - distance)
    }

    /// Adds a byte at the end of the history. A full window forgets its
    /// oldest byte.
    pub fn push(&mut self, byte: u8)
        requires
            old(self).wf(),
        ensures
            final(self).wf(),
            final(self)@ == pushed(old(self)@, byte),
    {
        ring_push(&mut self.ring, byte);
    }
}

} // verus!
