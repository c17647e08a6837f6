//! The frames that the spectral analysis works on.
//!
//! The samples of a stream are cut into frames of `frame_size` samples. Two
//! frames that follow each other share `frame_overlap` samples, so frame `k`
//! begins at sample `k * (frame_size - frame_overlap)`. Samples wait here
//! until a frame is full; what is left at the end of a stream, less than a
//! frame, is not analysed.
//!
//! The frames depend on the stream alone, not on the pieces in which its
//! samples come.

use vstd::prelude::*;

verus! {

/// The samples of a stream that wait to be analysed.
pub struct FrameBuffer<T> {
    frame_size: usize,
    frame_overlap: usize,
    buffer: Vec<T>,
    stream: Ghost<Seq<T>>,
    done: Ghost<nat>,
}

/// Frame `k` of a stream: the `frame_size` samples from sample `k * hop` on.
pub open spec fn frame_of<T>(stream: Seq<T>, frame_size: int, hop: int, k: int) -> Seq<T> {
    stream.subrange(k * hop, k * hop + frame_size)
}

impl<T: Copy> FrameBuffer<T> {
    /// Number of samples of a frame.
    pub closed spec fn spec_frame_size(&self) -> usize {
        self.frame_size
    }

    /// Number of samples that two frames that follow each other share.
    pub closed spec fn spec_frame_overlap(&self) -> usize {
        self.frame_overlap
    }

    /// Number of samples from the beginning of one frame to the beginning of
    /// the next.
    pub open spec fn hop(&self) -> int {
        self.spec_frame_size() - self.spec_frame_overlap()
    }

    /// All samples of the stream so far.
    pub closed spec fn stream(&self) -> Seq<T> {
        self.stream@
    }

    /// Number of frames that were analysed.
    pub closed spec fn done(&self) -> nat {
        self.done@
    }

    /// The samples that wait: the stream from the beginning of the next
    /// frame on.
    pub closed spec fn pending(&self) -> Seq<T> {
        self.buffer@
    }

    /// Two frames overlap by less than a frame, and the samples that wait
    /// are the stream from the beginning of the next frame on.
    pub closed spec fn wf(&self) -> bool {
        &&& self.frame_overlap < self.frame_size
        &&& self.done@ * (self.frame_size - self.frame_overlap) <= self.stream@.len()
        &&& self.buffer@ == self.stream@.skip(self.done@ * (self.frame_size - self.frame_overlap))
    }

    /// Whether the next frame is full.
    pub open spec fn ready(&self) -> bool {
        self.done() * self.hop() + self.spec_frame_size() <= self.stream().len()
    }

    /// A buffer for frames of `frame_size` samples that overlap by
    /// `frame_overlap` samples.
    pub fn new(frame_size: usize, frame_overlap: usize) -> (frames: Self)
        requires
            frame_overlap < frame_size,
        ensures
            frames.wf(),
            frames.spec_frame_size() == frame_size,
            frames.spec_frame_overlap() == frame_overlap,
            frames.stream() == Seq::<T>::empty(),
            frames.done() == 0,
    {
        let frames = Self {
            frame_size,
            frame_overlap,
            buffer: Vec::new(),
            stream: Ghost(Seq::empty()),
            done: Ghost(0),
        };
        proof {
            assert(0 * (frame_size - frame_overlap) == 0) by (nonlinear_arith);
            assert(frames.buffer@ =~= frames.stream@.skip(0));
        }
        frames
    }

    /// Number of samples of a frame.
    pub fn frame_size(&self) -> (frame_size: usize)
        ensures
            frame_size == self.spec_frame_size(),
    {
        self.frame_size
    }

    /// Number of samples that two frames that follow each other share.
    pub fn frame_overlap(&self) -> (frame_overlap: usize)
        ensures
            frame_overlap == self.spec_frame_overlap(),
    {
        self.frame_overlap
    }

    /// Takes the next samples of the stream.
    pub fn extend(&mut self, data: &[T])
        requires
            old(self).wf(),
        ensures
            final(self).wf(),
            final(self).stream() == old(self).stream() + data@,
            final(self).done() == old(self).done(),
            final(self).spec_frame_size() == old(self).spec_frame_size(),
            final(self).spec_frame_overlap() == old(self).spec_frame_overlap(),
    {
        let ghost start = self.done@ * (self.frame_size - self.frame_overlap);
        proof {
            assert(0 <= self.done@ * (self.frame_size - self.frame_overlap)) by (nonlinear_arith)
                requires
                    self.frame_size - self.frame_overlap > 0,
            ;
        }
        let mut i: usize = 0;
        while i < data.len()
            invariant
                i <= data@.len(),
                0 <= start,
                self.frame_size == old(self).frame_size,
                self.frame_overlap == old(self).frame_overlap,
                self.done@ == old(self).done@,
                self.stream@ == old(self).stream@,
                start == self.done@ * (self.frame_size - self.frame_overlap),
                start <= old(self).stream@.len(),
                self.buffer@ == (old(self).stream@ + data@.take(i as int)).skip(start),
            decreases data@.len() - i,
        {
            let ghost shorter = old(self).stream@ + data@.take(i as int);
            let ghost longer = old(self).stream@ + data@.take(i + 1);
            self.buffer.push(data[i]);
            proof {
                assert(longer =~= shorter.push(data@[i as int]));
                assert(longer.skip(start) =~= shorter.skip(start).push(data@[i as int]));
            }
            i += 1;
        }
        proof {
            assert(data@.take(data@.len() as int) =~= data@);
            self.stream@ = self.stream@ + data@;
        }
    }

    /// The next frame, where it is full.
    pub fn frame(&self) -> (frame: Option<&[T]>)
        requires
            self.wf(),
        ensures
            frame is Some <==> self.ready(),
            frame is Some ==> frame->0@ == frame_of(
                self.stream(),
                self.spec_frame_size() as int,
                self.hop(),
                self.done() as int,
            ),
    {
        if self.buffer.len() >= self.frame_size {
            let frame = vstd::slice::slice_subrange(self.buffer.as_slice(), 0, self.frame_size);
            proof {
                let start = self.done@ * (self.frame_size - self.frame_overlap);
                assert(0 <= self.done@ * (self.frame_size - self.frame_overlap)) by (nonlinear_arith)
                    requires
                        self.frame_size - self.frame_overlap > 0,
                ;
                assert(frame@ =~= self.stream@.subrange(start, start + self.frame_size));
            }
            Some(frame)
        } else {
            None
        }
    }

    /// Goes on to the next frame: drops the samples before its beginning.
    pub fn advance(&mut self)
        requires
            old(self).wf(),
            old(self).ready(),
        ensures
            final(self).wf(),
            final(self).stream() == old(self).stream(),
            final(self).done() == old(self).done() + 1,
            final(self).spec_frame_size() == old(self).spec_frame_size(),
            final(self).spec_frame_overlap() == old(self).spec_frame_overlap(),
    {
        let hop: usize = self.frame_size - self.frame_overlap;
        let ghost start = self.done@ * hop;
        proof {
            assert(0 <= self.done@ * hop) by (nonlinear_arith)
                requires
                    hop > 0,
            ;
        }
        let rest = self.buffer.split_off(hop);
        self.buffer = rest;
        proof {
            assert((self.done@ + 1) * hop == start + hop) by (nonlinear_arith)
                requires
                    start == self.done@ * hop,
            ;
            self.done@ = self.done@ + 1;
            assert(self.buffer@ =~= self.stream@.skip(start + hop));
        }
    }

    /// Begins a new stream: forgets the samples that wait.
    pub fn reset(&mut self)
        requires
            old(self).wf(),
        ensures
            final(self).wf(),
            final(self).stream() == Seq::<T>::empty(),
            final(self).done() == 0,
            final(self).spec_frame_size() == old(self).spec_frame_size(),
            final(self).spec_frame_overlap() == old(self).spec_frame_overlap(),
    {
        self.buffer.clear();
        proof {
            self.stream@ = Seq::empty();
            self.done@ = 0;
            assert(0 * (self.frame_size - self.frame_overlap) == 0) by (nonlinear_arith);
            assert(self.buffer@ =~= self.stream@.skip(0));
        }
    }

    /// Number of samples that wait.
    pub fn len(&self) -> (len: usize)
        requires
            self.wf(),
        ensures
            len == self.stream().len() - self.done() * self.hop(),
    {
        self.buffer.len()
    }
}

} // verus!
