//! The ring of chroma vectors that the filter over time reads from.
//!
//! The filter keeps the last eight vectors in a ring. Once it holds as many
//! vectors as it has coefficients, every new vector gives one output: the
//! sum of the last vectors, each times its coefficient, the oldest first.
//!
//! This module knows the slots of the ring: where a new vector is to be
//! written and which slot each coefficient reads. The vectors themselves are
//! kept by whoever uses it.

use vstd::prelude::*;

verus! {

/// Number of vectors that the ring holds.
pub const RING_SIZE: usize = 8;

/// The slots of a ring of chroma vectors for a filter of `taps` coefficients.
#[derive(Debug, Clone, Copy, PartialEq, Eq, Structural)]
pub struct ChromaFilter {
    taps: usize,
    buffer_offset: usize,
    buffer_size: usize,
}

/// What is to be done with a new vector.
#[derive(Debug, Clone, Copy, PartialEq, Eq, Structural)]
pub struct RingStep {
    /// The slot that the new vector is to be written to.
    pub slot: usize,
    /// The slot that the first coefficient reads, where there is an output.
    pub first: Option<usize>,
}

impl ChromaFilter {
    /// Number of coefficients.
    pub closed spec fn spec_taps(&self) -> usize {
        self.taps
    }

    /// Number of vectors that were taken since the last reset, counted up to
    /// one less than the number of coefficients.
    pub closed spec fn taken(&self) -> int {
        self.buffer_size as int - 1
    }

    /// The slot that the next vector is written to.
    pub closed spec fn next_slot(&self) -> usize {
        self.buffer_offset
    }

    /// Whether the next vector gives an output: all but one of the vectors
    /// that the coefficients need were taken.
    pub open spec fn primed(&self) -> bool {
        self.taken() >= self.spec_taps() - 1
    }

    /// The ring has room for the coefficients.
    pub closed spec fn wf(&self) -> bool {
        &&& self.taps <= RING_SIZE
        &&& self.buffer_offset < RING_SIZE
        &&& 1 <= self.buffer_size
        &&& self.buffer_size <= self.taps || self.buffer_size == 1
    }

    /// The slots of a ring for a filter of `taps` coefficients.
    pub fn new(taps: usize) -> (filter: Self)
        requires
            taps <= RING_SIZE,
        ensures
            filter.wf(),
            filter.spec_taps() == taps,
            filter.next_slot() == 0,
            filter.taken() == 0,
    {
        Self { taps, buffer_offset: 0, buffer_size: 1 }
    }

    /// Takes a new vector: tells the slot that it is to be written to, and,
    /// once as many vectors were taken as there are coefficients, the slot
    /// that the first coefficient reads.
    pub fn consume(&mut self) -> (step: RingStep)
        requires
            old(self).wf(),
        ensures
            final(self).wf(),
            final(self).spec_taps() == old(self).spec_taps(),
            step.slot == old(self).next_slot(),
            final(self).next_slot() == (old(self).next_slot() + 1) % RING_SIZE as int,
            step.first == if old(self).primed() {
                Some(
                    ((old(self).next_slot() + 1 + RING_SIZE - old(self).spec_taps())
                        % RING_SIZE as int) as usize,
                )
            } else {
                None
            },
            final(self).taken() == if old(self).primed() {
                old(self).taken()
            } else {
                old(self).taken() + 1
            },
    {
        let slot: usize = self.buffer_offset;
        self.buffer_offset = (self.buffer_offset + 1) % RING_SIZE;
        if self.buffer_size >= self.taps {
            let first: usize = (self.buffer_offset + RING_SIZE - self.taps) % RING_SIZE;
            RingStep { slot, first: Some(first) }
        } else {
            self.buffer_size += 1;
            RingStep { slot, first: None }
        }
    }

    /// The slot that coefficient `j` reads when the first coefficient reads
    /// the slot `first`.
    pub fn tap_slot(&self, first: usize, j: usize) -> (slot: usize)
        requires
            first < RING_SIZE,
            j < RING_SIZE,
        ensures
            slot == (first + j) % RING_SIZE as int,
            slot < RING_SIZE,
    {
        (first + j) % RING_SIZE
    }

    /// Begins anew: the ring counts as empty.
    pub fn reset(&mut self)
        requires
            old(self).wf(),
        ensures
            final(self).wf(),
            final(self).spec_taps() == old(self).spec_taps(),
            final(self).next_slot() == 0,
            final(self).taken() == 0,
    {
        self.buffer_size = 1;
        self.buffer_offset = 0;
    }
}

/// The last coefficient reads the slot of the new vector, and the
/// coefficients before it the slots of the vectors before that one: with
/// `taps` coefficients, coefficient `j` reads what was written `taps - 1 - j`
/// vectors ago.
pub proof fn lemma_tap_reads(slot: int, taps: int, j: int)
    requires
        0 <= slot < RING_SIZE,
        0 <= taps <= RING_SIZE,
        0 <= j < taps,
    ensures
        (((slot + 1 + RING_SIZE - taps) % RING_SIZE as int) + j) % RING_SIZE as int == (slot
            + RING_SIZE - (taps - 1 - j)) % RING_SIZE as int,
{
}

} // verus!
