//! Cutting a stream of decoded audio into the chunks that are fingerprinted.
//!
//! A stream comes in buffers of frames. It may be limited to a number of
//! frames, and it may be cut into chunks of a number of frames, each of
//! which gets a fingerprint of its own. The first chunk is longer than the
//! others by the frames that a fingerprinter holds back. For every buffer
//! this module says which of its frames go to the chunk that is being
//! filled, whether that chunk is full, and which frames go to the next one.

use vstd::prelude::*;

verus! {

/// How far a stream and its chunk have come.
#[derive(Debug, Clone, Copy, PartialEq, Eq, Structural)]
pub struct ChunkPlanner {
    /// Number of frames after which the stream ends, or zero for no limit.
    pub stream_limit: usize,
    /// Number of frames of a chunk, or zero where the stream is not cut.
    pub chunk_limit: usize,
    /// Number of frames of the stream that were taken.
    pub stream_size: usize,
    /// Number of frames of the chunk that is being filled.
    pub chunk_size: usize,
    /// Number of frames by which the chunk that is being filled is longer.
    pub extra_chunk_limit: usize,
    /// Whether the chunk that is being filled is the first.
    pub first_chunk: bool,
}

/// Some frames of a buffer: from the one at `begin` up to, and without, the
/// one at `end`.
#[derive(Debug, Clone, Copy, PartialEq, Eq, Structural)]
pub struct FrameRange {
    /// The first frame.
    pub begin: usize,
    /// The frame behind the last.
    pub end: usize,
}

/// What is to be done with the frames of a buffer.
#[derive(Debug, Clone, Copy, PartialEq, Eq, Structural)]
pub struct Pieces {
    /// Number of frames, from the first of the buffer on, that go to the
    /// chunk that is being filled.
    pub first_part: usize,
    /// Whether the chunk is full after them, and with how many frames, the
    /// extra ones of the first chunk not counted.
    pub chunk_done: Option<usize>,
    /// What is taken for the next chunk, where frames are left over: the
    /// frames from the one behind the first part up to, and without, the one
    /// whose place is the number of frames that are left over.
    pub rest: Option<FrameRange>,
    /// Whether the stream ends with this buffer.
    pub stream_done: bool,
}

/// What a buffer leads to.
#[derive(Debug, Clone, Copy, PartialEq, Eq, Structural)]
pub enum Step {
    /// None of its frames is taken; the stream goes on.
    Skip,
    /// None of its frames is taken, and the stream ends.
    Stop,
    /// Its frames are taken as the pieces say.
    Take(Pieces),
}

/// The lesser of two numbers.
pub open spec fn least(a: int, b: int) -> int {
    if a <= b {
        a
    } else {
        b
    }
}

impl ChunkPlanner {
    /// Number of frames of a buffer of `frames` frames that the stream still
    /// takes.
    pub open spec fn taken_of(&self, frames: int) -> int {
        if self.stream_limit > 0 {
            least(frames, self.stream_limit - self.stream_size)
        } else {
            frames
        }
    }

    /// Whether a buffer of `frames` frames reaches beyond the end of the
    /// stream.
    pub open spec fn ends_stream(&self, frames: int) -> bool {
        self.stream_limit > 0 && frames > self.stream_limit - self.stream_size
    }

    /// Number of frames that the chunk still takes.
    pub open spec fn room(&self) -> int {
        self.chunk_limit + self.extra_chunk_limit - self.chunk_size
    }

    /// Number of the frames that the stream takes that go to the chunk.
    pub open spec fn first_of(&self, frames: int) -> int {
        if self.chunk_limit > 0 {
            least(self.taken_of(frames), self.room())
        } else {
            self.taken_of(frames)
        }
    }

    /// Whether the frames that the stream takes fill the chunk and go beyond.
    pub open spec fn fills_chunk(&self, frames: int) -> bool {
        self.chunk_limit > 0 && self.taken_of(frames) > self.room()
    }

    /// Whether a buffer of `frames` frames can be planned: the stream has not
    /// gone beyond its limit nor the chunk beyond its own, what is left for
    /// the next chunk begins no later than it ends, and the counts fit.
    pub open spec fn can_take(&self, frames: int) -> bool {
        &&& self.stream_limit > 0 ==> self.stream_size <= self.stream_limit
        &&& self.stream_size + self.taken_of(frames) <= usize::MAX
        &&& self.taken_of(frames) > 0 ==> {
            &&& self.chunk_limit > 0 ==> self.chunk_limit + self.extra_chunk_limit <= usize::MAX
                && self.chunk_size <= self.chunk_limit + self.extra_chunk_limit
            &&& self.chunk_size + self.taken_of(frames) <= usize::MAX
            &&& self.taken_of(frames) > self.first_of(frames) ==> self.first_of(frames)
                <= self.taken_of(frames) - self.first_of(frames)
        }
    }

    /// The state after a buffer of `frames` frames.
    pub open spec fn after(&self, frames: int) -> ChunkPlanner {
        let taken = self.taken_of(frames);
        let first = self.first_of(frames);
        if taken == 0 {
            *self
        } else if self.fills_chunk(frames) {
            ChunkPlanner {
                stream_size: (self.stream_size + taken) as usize,
                chunk_size: (taken - first) as usize,
                extra_chunk_limit: if self.first_chunk {
                    0
                } else {
                    self.extra_chunk_limit
                },
                first_chunk: false,
                ..*self
            }
        } else {
            ChunkPlanner {
                stream_size: (self.stream_size + taken) as usize,
                chunk_size: (self.chunk_size + taken) as usize,
                ..*self
            }
        }
    }

    /// What a buffer of `frames` frames leads to.
    pub open spec fn step(&self, frames: int) -> Step {
        let taken = self.taken_of(frames);
        let first = self.first_of(frames);
        if taken == 0 {
            if self.ends_stream(frames) {
                Step::Stop
            } else {
                Step::Skip
            }
        } else {
            Step::Take(
                Pieces {
                    first_part: first as usize,
                    chunk_done: if self.fills_chunk(frames) {
                        Some((self.chunk_size + first - self.extra_chunk_limit) as usize)
                    } else {
                        None
                    },
                    rest: if taken - first > 0 {
                        Some(FrameRange { begin: first as usize, end: (taken - first) as usize })
                    } else {
                        None
                    },
                    stream_done: self.ends_stream(frames),
                },
            )
        }
    }

    /// A planner at the beginning of a stream of up to `stream_limit` frames
    /// that is cut into chunks of `chunk_limit` frames, the first of which is
    /// longer by `extra_chunk_limit` frames. A limit of zero is no limit.
    pub fn new(stream_limit: usize, chunk_limit: usize, extra_chunk_limit: usize) -> (planner: Self)
        ensures
            planner == (ChunkPlanner {
                stream_limit,
                chunk_limit,
                stream_size: 0,
                chunk_size: 0,
                extra_chunk_limit,
                first_chunk: true,
            }),
    {
        ChunkPlanner {
            stream_limit,
            chunk_limit,
            stream_size: 0,
            chunk_size: 0,
            extra_chunk_limit,
            first_chunk: true,
        }
    }

    /// Tells whether a buffer of `frames` frames can be planned.
    pub fn is_plannable(&self, frames: usize) -> (plannable: bool)
        ensures
            plannable == self.can_take(frames as int),
    {
        if self.stream_limit > 0 && self.stream_size > self.stream_limit {
            return false;
        }
        let taken: usize = if self.stream_limit > 0 {
            let remaining: usize = self.stream_limit - self.stream_size;
            if frames <= remaining {
                frames
            } else {
                remaining
            }
        } else {
            frames
        };
        if taken > usize::MAX - self.stream_size {
            return false;
        }
        if taken == 0 {
            return true;
        }
        if taken > usize::MAX - self.chunk_size {
            return false;
        }
        let first: usize = if self.chunk_limit > 0 {
            if self.extra_chunk_limit > usize::MAX - self.chunk_limit {
                return false;
            }
            let limit: usize = self.chunk_limit + self.extra_chunk_limit;
            if self.chunk_size > limit {
                return false;
            }
            let room: usize = limit - self.chunk_size;
            if taken <= room {
                taken
            } else {
                room
            }
        } else {
            taken
        };
        !(taken > first && first > taken - first)
    }

    /// Plans a buffer of `frames` frames.
    pub fn next(&mut self, frames: usize) -> (step: Step)
        requires
            old(self).can_take(frames as int),
        ensures
            step == old(self).step(frames as int),
            *final(self) == old(self).after(frames as int),
    {
        let (stream_done, frame_size) = if self.stream_limit > 0 {
            let remaining: usize = self.stream_limit - self.stream_size;
            (
                frames > remaining,
                if frames <= remaining {
                    frames
                } else {
                    remaining
                },
            )
        } else {
            (false, frames)
        };
        self.stream_size += frame_size;

        if frame_size == 0 {
            if stream_done {
                return Step::Stop;
            } else {
                return Step::Skip;
            }
        }
        let (chunk_done, first_part_size) = if self.chunk_limit > 0 {
            let remaining: usize = self.chunk_limit + self.extra_chunk_limit - self.chunk_size;
            (
                frame_size > remaining,
                if frame_size <= remaining {
                    frame_size
                } else {
                    remaining
                },
            )
        } else {
            (false, frame_size)
        };
        self.chunk_size += first_part_size;

        let mut done: Option<usize> = None;
        if chunk_done {
            done = Some(self.chunk_size - self.extra_chunk_limit);
            if self.first_chunk {
                self.extra_chunk_limit = 0;
                self.first_chunk = false;
            }
            self.chunk_size = 0;
        }
        let rest_size: usize = frame_size - first_part_size;
        let rest: Option<FrameRange> = if rest_size > 0 {
            Some(FrameRange { begin: first_part_size, end: rest_size })
        } else {
            None
        };
        self.chunk_size += rest_size;

        Step::Take(Pieces { first_part: first_part_size, chunk_done: done, rest, stream_done })
    }

    /// Number of frames of the chunk that is left when the stream has ended,
    /// the extra ones of the first chunk not counted; nothing where the
    /// chunk is empty.
    pub fn last_chunk(&self) -> (frames: Option<usize>)
        requires
            self.chunk_size >= self.extra_chunk_limit || self.chunk_size == 0,
        ensures
            frames == if self.chunk_size > 0 {
                Some((self.chunk_size - self.extra_chunk_limit) as usize)
            } else {
                None
            },
    {
        if self.chunk_size > 0 {
            Some(self.chunk_size - self.extra_chunk_limit)
        } else {
            None
        }
    }
}

} // verus!
