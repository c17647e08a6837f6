//! The front of the pipeline: mixing the channels of interleaved PCM down to
//! one and collecting the result in slabs.
//!
//! The samples of one frame (one sample of each channel) are replaced by
//! their mean, rounded towards zero. The mono samples are collected in a slab
//! of `MAX_BUFFER_SIZE` samples; a full slab is handed to the next stage,
//! which brings it to the target sample rate.

use vstd::prelude::*;
use crate::stages::{AudioConsumer, Stage};

verus! {

/// A stream must have a higher sample rate than this.
pub const MIN_SAMPLE_RATE: u32 = 1000;

/// Number of mono samples of a slab.
pub const MAX_BUFFER_SIZE: usize = 32768;

/// Why a stream cannot be processed.
#[derive(Debug, Clone, Copy, PartialEq, Eq, Structural)]
pub enum ResetError {
    /// The sample rate is `MIN_SAMPLE_RATE` or less.
    SampleRateTooLow,
    /// The stream has no channels.
    NoChannels,
    /// No resampler can be made for the sample rate of the stream.
    CannotResample,
}

/// Division that rounds towards zero.
pub open spec fn trunc_div(a: int, b: int) -> int {
    if a >= 0 {
        a / b
    } else {
        -((-a) / b)
    }
}

/// The sum of the samples of `frame`.
pub open spec fn frame_sum(frame: Seq<i16>) -> int
    decreases frame.len(),
{
    if frame.len() == 0 {
        0
    } else {
        frame_sum(frame.drop_last()) + frame.last()
    }
}

/// The mean of the samples of a frame, rounded towards zero.
pub open spec fn mix_frame(frame: Seq<i16>) -> i16 {
    trunc_div(frame_sum(frame), frame.len() as int) as i16
}

/// The mono stream of interleaved samples of `channels` channels: the mean
/// of every whole frame.
pub open spec fn mixed(input: Seq<i16>, channels: int) -> Seq<i16> {
    Seq::new(
        (input.len() as int / channels) as nat,
        |f: int| mix_frame(input.subrange(f * channels, (f + 1) * channels)),
    )
}

/// The sum of a frame lies between its length times the least and times the
/// greatest sample value.
pub proof fn lemma_frame_sum_bounds(frame: Seq<i16>)
    ensures
        -32768 * frame.len() <= frame_sum(frame) <= 32767 * frame.len(),
    decreases frame.len(),
{
    if frame.len() > 0 {
        lemma_frame_sum_bounds(frame.drop_last());
    }
}

/// The mean of a frame is a sample value.
pub proof fn lemma_mix_frame_range(frame: Seq<i16>)
    requires
        frame.len() > 0,
    ensures
        -32768 <= trunc_div(frame_sum(frame), frame.len() as int) <= 32767,
{
    lemma_frame_sum_bounds(frame);
    let s = frame_sum(frame);
    let n = frame.len() as int;
    if s >= 0 {
        assert(s / n <= 32767) by (nonlinear_arith)
            requires
                0 <= s <= 32767 * n,
                n > 0,
        ;
        assert(s / n >= 0) by (nonlinear_arith)
            requires
                0 <= s,
                n > 0,
        ;
    } else {
        assert((-s) / n <= 32768) by (nonlinear_arith)
            requires
                0 <= -s <= 32768 * n,
                n > 0,
        ;
        assert((-s) / n >= 0) by (nonlinear_arith)
            requires
                0 <= -s,
                n > 0,
        ;
    }
}

/// The mono stream grows by one frame at a time.
proof fn lemma_mixed_extend(input: Seq<i16>, channels: int, f: int)
    requires
        channels >= 1,
        0 <= f,
        (f + 1) * channels <= input.len(),
    ensures
        0 <= f * channels <= (f + 1) * channels,
        mixed(input.take((f + 1) * channels), channels) == mixed(
            input.take(f * channels),
            channels,
        ).push(mix_frame(input.subrange(f * channels, (f + 1) * channels))),
{
    let c = channels;
    assert(0 <= f * c <= (f + 1) * c) by (nonlinear_arith)
        requires
            c >= 1,
            0 <= f,
    ;
    let longer = input.take((f + 1) * c);
    let shorter = input.take(f * c);
    vstd::arithmetic::div_mod::lemma_div_by_multiple(f + 1, c);
    vstd::arithmetic::div_mod::lemma_div_by_multiple(f, c);
    assert(longer.len() as int / c == f + 1);
    assert(shorter.len() as int / c == f);
    let a = mixed(longer, c);
    let b = mixed(shorter, c).push(mix_frame(input.subrange(f * c, (f + 1) * c)));
    assert forall|g: int| 0 <= g < f + 1 implies a[g] == b[g] by {
        assert(0 <= g * c <= (g + 1) * c <= (f + 1) * c) by (nonlinear_arith)
            requires
                c >= 1,
                0 <= g < f + 1,
        ;
        assert(longer.subrange(g * c, (g + 1) * c) =~= input.subrange(g * c, (g + 1) * c));
        if g < f {
            assert((g + 1) * c <= f * c) by (nonlinear_arith)
                requires
                    c >= 1,
                    g + 1 <= f,
            ;
            assert(shorter.subrange(g * c, (g + 1) * c) =~= input.subrange(g * c, (g + 1) * c));
        }
    }
    assert(a =~= b);
}

/// Chunks do not matter: the mono stream of two pieces of a stream, the
/// first of whole frames, is the mono stream of the first followed by that
/// of the second.
pub proof fn lemma_mixed_concat(a: Seq<i16>, b: Seq<i16>, channels: int)
    requires
        channels >= 1,
        a.len() % (channels as nat) == 0,
    ensures
        mixed(a + b, channels) == mixed(a, channels) + mixed(b, channels),
{
    let c = channels;
    let fa = a.len() as int / c;
    let fb = b.len() as int / c;
    vstd::arithmetic::div_mod::lemma_fundamental_div_mod(a.len() as int, c);
    assert(a.len() == fa * c) by (nonlinear_arith)
        requires
            a.len() == c * fa + a.len() as int % c,
            a.len() as int % c == 0,
    ;
    vstd::arithmetic::div_mod::lemma_div_multiples_vanish_quotient(c, a.len() as int + b.len(), c);
    assert((a + b).len() as int / c == fa + fb) by {
        vstd::arithmetic::div_mod::lemma_fundamental_div_mod(b.len() as int, c);
        let r = b.len() as int % c;
        assert(a.len() + b.len() == c * (fa + fb) + r) by (nonlinear_arith)
            requires
                a.len() == fa * c,
                b.len() == c * fb + r,
        ;
        vstd::arithmetic::div_mod::lemma_fundamental_div_mod_converse_div(
            a.len() as int + b.len() as int,
            c,
            fa + fb,
            r,
        );
    }
    let whole = mixed(a + b, c);
    let parts = mixed(a, c) + mixed(b, c);
    assert(fa >= 0 && fb >= 0);
    assert forall|g: int| 0 <= g < fa + fb implies whole[g] == parts[g] by {
        if g < fa {
            assert(0 <= g * c <= (g + 1) * c <= fa * c) by (nonlinear_arith)
                requires
                    c >= 1,
                    0 <= g,
                    g + 1 <= fa,
            ;
            assert((a + b).subrange(g * c, (g + 1) * c) =~= a.subrange(g * c, (g + 1) * c));
        } else {
            let h = g - fa;
            assert(g * c == fa * c + h * c && (g + 1) * c == fa * c + (h + 1) * c) by (nonlinear_arith)
                requires
                    h == g - fa,
            ;
            assert(0 <= h * c <= (h + 1) * c <= fb * c) by (nonlinear_arith)
                requires
                    c >= 1,
                    0 <= h,
                    h + 1 <= fb,
            ;
            assert(fb * c <= b.len()) by {
                vstd::arithmetic::div_mod::lemma_fundamental_div_mod(b.len() as int, c);
                assert(fb * c == c * fb) by (nonlinear_arith);
            }
            assert((a + b).subrange(g * c, (g + 1) * c) =~= b.subrange(h * c, (h + 1) * c));
        }
    }
    assert(whole =~= parts);
}

/// What `consume` makes of a processor whose mono stream is `stream`, of
/// which `waiting` samples wait in the slab: the stream with the means of the
/// frames of `data`, and the number of samples that wait then.
pub open spec fn consumed(stream: Seq<i16>, waiting: int, data: Seq<i16>, channels: int) -> (
    Seq<i16>,
    int,
) {
    (
        stream + mixed(data, channels),
        (waiting + data.len() as int / channels) % MAX_BUFFER_SIZE as int,
    )
}

/// Taking a stream in two pieces, the first of whole frames, leaves a
/// processor as taking it in one piece does: with the same mono stream, of
/// which as many samples wait and as many were handed on.
pub proof fn lemma_chunks_do_not_matter(
    stream: Seq<i16>,
    waiting: int,
    a: Seq<i16>,
    b: Seq<i16>,
    channels: int,
)
    requires
        channels >= 1,
        0 <= waiting,
        a.len() % (channels as nat) == 0,
    ensures
        ({
            let first = consumed(stream, waiting, a, channels);
            consumed(first.0, first.1, b, channels) == consumed(stream, waiting, a + b, channels)
        }),
{
    let c = channels;
    let m = MAX_BUFFER_SIZE as int;
    let la = a.len() as int / c;
    let lb = b.len() as int / c;
    lemma_mixed_concat(a, b, c);
    assert(mixed(a, c).len() == la && mixed(b, c).len() == lb);
    assert(mixed(a + b, c).len() == (a + b).len() as int / c);
    assert((a + b).len() as int / c == la + lb);
    assert(stream + mixed(a, c) + mixed(b, c) =~= stream + (mixed(a, c) + mixed(b, c)));
    assert(la >= 0 && lb >= 0) by (nonlinear_arith)
        requires
            la == a.len() as int / c,
            lb == b.len() as int / c,
            c >= 1,
    ;
    vstd::arithmetic::div_mod::lemma_add_mod_noop(waiting + la, lb, m);
    vstd::arithmetic::div_mod::lemma_small_mod((lb % m) as nat, m as nat);
    vstd::arithmetic::div_mod::lemma_mod_twice(waiting + la, m);
    vstd::arithmetic::div_mod::lemma_add_mod_noop((waiting + la) % m, lb, m);
}

/// Mixing down does not change a stream of one channel.
pub proof fn lemma_mixed_mono(x: Seq<i16>)
    ensures
        mixed(x, 1) == x,
{
    assert forall|f: int| 0 <= f < x.len() implies mixed(x, 1)[f] == x[f] by {
        let frame = x.subrange(f * 1, (f + 1) * 1);
        assert(frame.drop_last() =~= Seq::<i16>::empty());
        assert(frame_sum(frame.drop_last()) == 0);
        assert(frame.last() == x[f]);
        assert(frame_sum(frame) == x[f]);
    }
    assert(mixed(x, 1) =~= x);
}

/// A stereo stream with the same signal on both channels.
pub open spec fn doubled(x: Seq<i16>) -> Seq<i16> {
    Seq::new(2 * x.len(), |i: int| x[i / 2])
}

/// The mono stream of a stereo stream with the signal `x` on both channels
/// is the mono stream of `x` alone.
pub proof fn lemma_mixed_doubled(x: Seq<i16>)
    ensures
        mixed(doubled(x), 2) == mixed(x, 1),
{
    lemma_mixed_mono(x);
    let d = doubled(x);
    assert forall|f: int| 0 <= f < x.len() implies mixed(d, 2)[f] == x[f] by {
        let frame = d.subrange(f * 2, (f + 1) * 2);
        let first = frame.drop_last();
        assert(first.drop_last() =~= Seq::<i16>::empty());
        assert(frame_sum(first.drop_last()) == 0);
        assert(first.last() == x[f]);
        assert(frame.last() == x[f]);
        assert(frame_sum(first) == x[f]);
        assert(frame_sum(frame) == 2 * x[f]);
    }
    assert(mixed(d, 2) =~= x);
}

/// Collects the mono samples of a stream in slabs for the next stage.
pub struct AudioProcessor<C: AudioConsumer<i16>> {
    buffer: Vec<i16>,
    buffer_offset: usize,
    channels: u32,
    consumer: C,
    target_sample_rate: u32,
    resampling: bool,
    handed_on: Ghost<Seq<i16>>,
}

impl<C: AudioConsumer<i16>> AudioProcessor<C> {
    /// The slab has its size and is not full.
    pub closed spec fn wf(&self) -> bool {
        self.buffer@.len() == MAX_BUFFER_SIZE && self.buffer_offset < MAX_BUFFER_SIZE
    }

    /// The mono samples that wait in the slab.
    pub closed spec fn pending(&self) -> Seq<i16> {
        self.buffer@.take(self.buffer_offset as int)
    }

    /// The mono samples that were handed to the next stage since the stream
    /// began.
    pub closed spec fn handed_on(&self) -> Seq<i16> {
        self.handed_on@
    }

    /// The mono stream since it began: what was handed on and what waits.
    pub open spec fn stream(&self) -> Seq<i16> {
        self.handed_on() + self.pending()
    }

    /// The number of channels of the stream.
    pub closed spec fn channels(&self) -> u32 {
        self.channels
    }

    /// The sample rate that the next stage brings the stream to.
    pub closed spec fn target_sample_rate(&self) -> u32 {
        self.target_sample_rate
    }

    /// Whether the next stage has to resample the stream.
    pub closed spec fn resampling(&self) -> bool {
        self.resampling
    }

    /// The next stage.
    pub closed spec fn spec_consumer(&self) -> C {
        self.consumer
    }

    /// A processor in front of `consumer`, for streams that are to be brought
    /// to `target_sample_rate`.
    pub fn new(target_sample_rate: u32, consumer: C) -> (processor: Self)
        ensures
            processor.wf(),
            processor.stream() == Seq::<i16>::empty(),
            processor.channels() == 0,
            processor.target_sample_rate() == target_sample_rate,
            !processor.resampling(),
    {
        let mut buffer: Vec<i16> = Vec::with_capacity(MAX_BUFFER_SIZE);
        let mut i: usize = 0;
        while i < MAX_BUFFER_SIZE
            invariant
                i <= MAX_BUFFER_SIZE,
                buffer@.len() == i,
            decreases MAX_BUFFER_SIZE - i,
        {
            buffer.push(0);
            i += 1;
        }
        let processor = Self {
            buffer,
            buffer_offset: 0,
            channels: 0,
            consumer,
            target_sample_rate,
            resampling: false,
            handed_on: Ghost(Seq::empty()),
        };
        assert(processor.stream() =~= Seq::<i16>::empty());
        processor
    }

    /// Prepares for a stream of `channels` channels at `sample_rate`.
    ///
    /// A stream without channels is refused, and then one whose sample rate
    /// is `MIN_SAMPLE_RATE` or less; the processor stays as it was. Else the
    /// mono stream begins anew, the next stage is reset, and the stream is
    /// to be resampled where its rate is not the target rate.
    pub fn reset(&mut self, sample_rate: u32, channels: u32) -> (result: Result<(), ResetError>)
        requires
            old(self).wf(),
        ensures
            final(self).wf(),
            final(self).target_sample_rate() == old(self).target_sample_rate(),
            channels == 0 ==> result == Err::<(), ResetError>(ResetError::NoChannels),
            channels != 0 && sample_rate <= MIN_SAMPLE_RATE ==> result == Err::<(), ResetError>(
                ResetError::SampleRateTooLow,
            ),
            channels != 0 && sample_rate > MIN_SAMPLE_RATE ==> result is Ok,
            result is Err ==> *final(self) == *old(self),
            result is Ok ==> final(self).handed_on() == Seq::<i16>::empty(),
            result is Ok ==> final(self).pending() == Seq::<i16>::empty(),
            result is Ok ==> final(self).channels() == channels,
            result is Ok ==> final(self).resampling() == (sample_rate != old(
                self,
            ).target_sample_rate()),
    {
        if channels == 0 {
            return Err(ResetError::NoChannels);
        }
        if sample_rate <= MIN_SAMPLE_RATE {
            return Err(ResetError::SampleRateTooLow);
        }
        self.channels = channels;
        self.buffer_offset = 0;
        self.handed_on = Ghost(Seq::empty());
        self.consumer.reset();
        self.resampling = self.target_sample_rate != sample_rate;
        assert(self.stream() =~= Seq::<i16>::empty());
        Ok(())
    }

    /// Tells whether the next stage has to resample the stream.
    pub fn needs_resampling(&self) -> (needed: bool)
        ensures
            needed == self.resampling(),
    {
        self.resampling
    }

    /// The number of channels of the stream, or zero before a stream was
    /// begun.
    pub fn channel_count(&self) -> (channels: u32)
        ensures
            channels == self.channels(),
    {
        self.channels
    }

    /// The sample rate that the next stage brings the stream to.
    pub fn target_rate(&self) -> (rate: u32)
        ensures
            rate == self.target_sample_rate(),
    {
        self.target_sample_rate
    }

    /// The next stage.
    pub fn consumer(&self) -> (consumer: &C)
        ensures
            *consumer == self.spec_consumer(),
    {
        &self.consumer
    }

    /// The next stage, to be changed. The processor itself stays as it is.
    pub fn consumer_mut(&mut self) -> (consumer: &mut C)
        ensures
            *consumer == old(self).spec_consumer(),
            *final(consumer) == final(self).spec_consumer(),
            final(self).wf() == old(self).wf() && final(self).channels() == old(self).channels(),
            final(self).pending() == old(self).pending() && final(self).handed_on() == old(self).handed_on(),
            final(self).target_sample_rate() == old(self).target_sample_rate(),
            final(self).resampling() == old(self).resampling(),
    {
        &mut self.consumer
    }

    /// Number of mono samples that the slab can still take.
    fn available_space(&self) -> (space: usize)
        requires
            self.buffer@.len() == MAX_BUFFER_SIZE,
            self.buffer_offset <= MAX_BUFFER_SIZE,
        ensures
            space == MAX_BUFFER_SIZE - self.buffer_offset,
    {
        self.buffer.len() - self.buffer_offset
    }

    /// Puts one mono sample into the slab.
    fn push_sample(&mut self, value: i16)
        requires
            old(self).buffer@.len() == MAX_BUFFER_SIZE,
            old(self).buffer_offset < MAX_BUFFER_SIZE,
        ensures
            final(self).buffer@.len() == MAX_BUFFER_SIZE,
            final(self).buffer_offset == old(self).buffer_offset + 1,
            final(self).pending() == old(self).pending().push(value),
            final(self).handed_on == old(self).handed_on,
            final(self).channels == old(self).channels,
            final(self).target_sample_rate == old(self).target_sample_rate,
            final(self).resampling == old(self).resampling,
    {
        self.buffer.set(self.buffer_offset, value);
        self.buffer_offset += 1;
        assert(self.pending() =~= old(self).pending().push(value));
    }

    /// Mixes as many frames of `input` as the slab has room for and puts
    /// them there. Returns the number of samples taken from `input`.
    fn load(&mut self, input: &[i16], channels: usize) -> (taken: usize)
        requires
            old(self).buffer@.len() == MAX_BUFFER_SIZE,
            old(self).buffer_offset <= MAX_BUFFER_SIZE,
            channels >= 1,
            input@.len() % (channels as nat) == 0,
        ensures
            final(self).buffer@.len() == MAX_BUFFER_SIZE,
            final(self).buffer_offset <= MAX_BUFFER_SIZE,
            taken <= input@.len(),
            taken % channels == 0,
            taken / channels == if input@.len() / (channels as nat) <= MAX_BUFFER_SIZE - old(
                self,
            ).buffer_offset {
                input@.len() as int / (channels as int)
            } else {
                MAX_BUFFER_SIZE - old(self).buffer_offset
            },
            final(self).buffer_offset == old(self).buffer_offset + taken / channels,
            final(self).pending() == old(self).pending() + mixed(
                input@.take(taken as int),
                channels as int,
            ),
            final(self).handed_on == old(self).handed_on,
            final(self).channels == old(self).channels,
            final(self).target_sample_rate == old(self).target_sample_rate,
            final(self).resampling == old(self).resampling,
    {
        let available_samples: usize = input.len() / channels;
        let space: usize = self.available_space();
        let consumed: usize = if available_samples <= space {
            available_samples
        } else {
            space
        };
        proof {
            vstd::arithmetic::div_mod::lemma_fundamental_div_mod(
                input@.len() as int,
                channels as int,
            );
            assert(consumed * channels <= available_samples * channels) by (nonlinear_arith)
                requires
                    consumed <= available_samples,
                    channels >= 1,
            ;
            assert(available_samples * channels == input@.len()) by (nonlinear_arith)
                requires
                    input@.len() == channels * available_samples + input@.len() as int % (
                    channels as int),
                    input@.len() as int % (channels as int) == 0,
            ;
            vstd::arithmetic::div_mod::lemma_div_by_multiple(consumed as int, channels as int);
            vstd::arithmetic::div_mod::lemma_mod_multiples_basic(consumed as int, channels as int);
            assert(mixed(input@.take(0), channels as int) =~= Seq::<i16>::empty());
            assert(self.pending() + Seq::<i16>::empty() =~= self.pending());
            assert(0 * channels == 0) by (nonlinear_arith);
        }
        let ghost start = self.pending();
        let mut f: usize = 0;
        while f < consumed
            invariant
                f <= consumed,
                channels >= 1,
                consumed * channels <= input@.len() <= usize::MAX,
                self.buffer@.len() == MAX_BUFFER_SIZE,
                self.buffer_offset + (consumed - f) <= MAX_BUFFER_SIZE,
                self.buffer_offset == old(self).buffer_offset + f,
                self.pending() == start + mixed(input@.take(f * channels), channels as int),
                self.handed_on == old(self).handed_on,
                self.channels == old(self).channels,
                self.target_sample_rate == old(self).target_sample_rate,
                self.resampling == old(self).resampling,
            decreases consumed - f,
        {
            proof {
                assert((f + 1) * channels <= consumed * channels) by (nonlinear_arith)
                    requires
                        f + 1 <= consumed,
                        channels >= 1,
                ;
                assert((f + 1) * channels == f * channels + channels) by (nonlinear_arith);
                assert(0 <= f * channels) by (nonlinear_arith)
                    requires
                        f >= 0,
                        channels >= 1,
                ;
                lemma_mixed_extend(input@, channels as int, f as int);
            }
            let begin: usize = f * channels;
            let ghost frame = input@.subrange(begin as int, begin + channels);
            proof {
                lemma_mix_frame_range(frame);
            }
            let sample: i16 = if channels == 1 {
                proof {
                    assert(frame.drop_last() =~= Seq::<i16>::empty());
                    assert(frame_sum(frame.drop_last()) == 0);
                    assert(frame.last() == input@[begin as int]);
                    assert(frame_sum(frame) == input@[begin as int]);
                    assert(frame.len() == 1);
                    assert(mix_frame(frame) == input@[begin as int]);
                }
                input[begin]
            } else if channels == 2 {
                proof {
                    let first = frame.drop_last();
                    assert(first.drop_last() =~= Seq::<i16>::empty());
                    assert(frame_sum(first.drop_last()) == 0);
                    assert(first.last() == input@[begin as int]);
                    assert(frame_sum(first) == input@[begin as int]);
                    assert(frame.last() == input@[begin + 1]);
                    assert(frame_sum(frame) == input@[begin as int] + input@[begin + 1]);
                    assert(frame.len() == 2);
                }
                let mean: i32 = (input[begin] as i32 + input[begin + 1] as i32) / 2;
                assert(mean == trunc_div(frame_sum(frame), 2));
                mean as i16
            } else {
                let mut sum: i128 = 0;
                let mut k: usize = 0;
                while k < channels
                    invariant
                        k <= channels,
                        begin + channels <= input@.len() <= usize::MAX,
                        frame == input@.subrange(begin as int, begin + channels),
                        sum == frame_sum(frame.take(k as int)),
                        -32768 * k <= sum <= 32767 * k,
                    decreases channels - k,
                {
                    proof {
                        assert(frame.take(k + 1).drop_last() =~= frame.take(k as int));
                        assert(frame.take(k + 1).last() == input@[begin + k]);
                    }
                    sum = sum + input[begin + k] as i128;
                    k += 1;
                }
                proof {
                    assert(frame.take(channels as int) =~= frame);
                    assert(frame.len() == channels);
                }
                let mean: i128 = sum / (channels as i128);
                assert(mean == trunc_div(frame_sum(frame), channels as int));
                mean as i16
            };
            assert(sample == mix_frame(frame));
            self.push_sample(sample);
            proof {
                assert((start + mixed(input@.take(f * channels), channels as int)).push(sample)
                    =~= start + mixed(input@.take(f * channels), channels as int).push(sample));
            }
            f += 1;
        }
        consumed * channels
    }

    /// Hands the samples that wait in the slab to the next stage.
    fn hand_on(&mut self)
        requires
            old(self).buffer@.len() == MAX_BUFFER_SIZE,
            old(self).buffer_offset <= MAX_BUFFER_SIZE,
        ensures
            final(self).wf(),
            final(self).pending() == Seq::<i16>::empty(),
            final(self).handed_on() == old(self).handed_on() + old(self).pending(),
            final(self).channels == old(self).channels,
            final(self).target_sample_rate == old(self).target_sample_rate,
            final(self).resampling == old(self).resampling,
    {
        let slab = vstd::slice::slice_subrange(self.buffer.as_slice(), 0, self.buffer_offset);
        assert(slab@ =~= self.pending());
        self.consumer.consume(slab);
        self.handed_on = Ghost(self.handed_on@ + self.pending());
        self.buffer_offset = 0;
        assert(self.pending() =~= Seq::<i16>::empty());
    }

    /// Takes the next samples of the stream: whole frames of as many
    /// channels as the stream was begun with.
    ///
    /// The mono stream grows by the mean of every frame. Each time the slab
    /// is full it is handed to the next stage, so the slab is never left
    /// full.
    pub fn consume(&mut self, data: &[i16])
        requires
            old(self).wf(),
            old(self).channels() >= 1,
            data@.len() % (old(self).channels() as nat) == 0,
        ensures
            final(self).wf(),
            final(self).stream() == old(self).stream() + mixed(
                data@,
                old(self).channels() as int,
            ),
            final(self).pending().len() == (old(self).pending().len() + data@.len() / (old(
                self,
            ).channels() as nat)) % MAX_BUFFER_SIZE as nat,
            (final(self).stream(), final(self).pending().len() as int) == consumed(
                old(self).stream(),
                old(self).pending().len() as int,
                data@,
                old(self).channels() as int,
            ),
            final(self).channels() == old(self).channels(),
            final(self).target_sample_rate() == old(self).target_sample_rate(),
            final(self).resampling() == old(self).resampling(),
    {
        let channels: usize = self.channels as usize;
        let ghost c = channels as int;
        let ghost begun = self.stream();
        let ghost waiting = self.pending().len() as int;
        let ghost mut slabs: int = 0;
        let mut index: usize = 0;
        proof {
            assert(mixed(data@.take(0), c) =~= Seq::<i16>::empty());
            assert(begun + Seq::<i16>::empty() =~= begun);
            vstd::arithmetic::div_mod::lemma_small_mod(0, channels as nat);
        }
        while index < data.len()
            invariant
                index <= data@.len(),
                channels >= 1,
                c == channels,
                channels == self.channels,
                index % channels == 0,
                data@.len() % (channels as nat) == 0,
                self.wf(),
                self.stream() == begun + mixed(data@.take(index as int), c),
                waiting == old(self).pending().len(),
                slabs >= 0,
                self.handed_on().len() == old(self).handed_on().len() + slabs * MAX_BUFFER_SIZE,
                self.channels == old(self).channels,
                self.target_sample_rate == old(self).target_sample_rate,
                self.resampling == old(self).resampling,
            decreases data@.len() - index,
        {
            let rest = vstd::slice::slice_subrange(data, index, data.len());
            let ghost before = *self;
            proof {
                vstd::arithmetic::div_mod::lemma_sub_mod_noop(
                    data@.len() as int,
                    index as int,
                    c,
                );
                vstd::arithmetic::div_mod::lemma_small_mod(0, channels as nat);
                assert(rest@.len() % (channels as nat) == 0);
            }
            let taken: usize = self.load(rest, channels);
            proof {
                // a slab that is not full takes at least one frame
                assert(rest@.len() >= channels) by {
                    vstd::arithmetic::div_mod::lemma_fundamental_div_mod(rest@.len() as int, c);
                    if rest@.len() < channels {
                        vstd::arithmetic::div_mod::lemma_small_mod(
                            rest@.len() as nat,
                            channels as nat,
                        );
                    }
                }
                assert(rest@.len() as int / c >= 1) by (nonlinear_arith)
                    requires
                        rest@.len() >= c,
                        c >= 1,
                ;
                assert(taken >= channels) by {
                    vstd::arithmetic::div_mod::lemma_fundamental_div_mod(taken as int, c);
                    assert(taken as int / c >= 1);
                    assert(c * (taken as int / c) >= c) by (nonlinear_arith)
                        requires
                            taken as int / c >= 1,
                            c >= 1,
                    ;
                }
                let first = data@.take(index as int);
                let second = rest@.take(taken as int);
                assert(data@.take(index + taken) =~= first + second);
                lemma_mixed_concat(first, second, c);
                assert(self.handed_on() == before.handed_on());
                assert(self.pending() == before.pending() + mixed(second, c));
                assert(before.stream() == begun + mixed(first, c));
                assert(self.stream() =~= (begun + mixed(first, c)) + mixed(second, c));
                assert(self.stream() =~= begun + mixed(data@.take(index + taken), c));
                vstd::arithmetic::div_mod::lemma_add_mod_noop(index as int, taken as int, c);
                vstd::arithmetic::div_mod::lemma_small_mod(0, channels as nat);
            }
            index += taken;
            if self.buffer.len() == self.buffer_offset {
                let ghost full = self.stream();
                self.hand_on();
                proof {
                    slabs = slabs + 1;
                    assert(self.stream() =~= full);
                }
            }
        }
        proof {
            assert(data@.take(index as int) =~= data@);
            let grown = mixed(data@, c).len() as int;
            assert(grown == data@.len() as int / c);
            assert(self.stream().len() == begun.len() + grown);
            assert(begun.len() == old(self).handed_on().len() + waiting);
            let left = self.pending().len() as int;
            assert(waiting + grown == slabs * MAX_BUFFER_SIZE + left);
            assert(waiting + grown == MAX_BUFFER_SIZE * slabs + left) by (nonlinear_arith)
                requires
                    waiting + grown == slabs * MAX_BUFFER_SIZE + left,
            ;
            vstd::arithmetic::div_mod::lemma_fundamental_div_mod_converse_mod(
                waiting + grown,
                MAX_BUFFER_SIZE as int,
                slabs,
                left,
            );
        }
    }

    /// Ends the stream: hands the samples that still wait in the slab to the
    /// next stage, and has that stage work off what it holds back.
    pub fn flush(&mut self)
        requires
            old(self).wf(),
        ensures
            final(self).wf(),
            final(self).stream() == old(self).stream(),
            final(self).handed_on() == old(self).stream(),
            final(self).channels() == old(self).channels(),
            final(self).target_sample_rate() == old(self).target_sample_rate(),
            final(self).resampling() == old(self).resampling(),
    {
        if self.buffer_offset > 0 {
            self.hand_on();
        }
        assert(self.pending() =~= Seq::<i16>::empty());
        assert(self.stream() =~= self.handed_on());
        self.consumer.flush();
    }
}

impl<C: AudioConsumer<i16>> Stage for AudioProcessor<C> {
    type Output = C::Output;

    fn output(&self) -> (out: &Self::Output)
        ensures
            call_ensures(C::output, (&self.spec_consumer(),), out),
    {
        self.consumer.output()
    }
}

} // verus!
