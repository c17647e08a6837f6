//! Which bins of a spectrum the chroma features take in.
//!
//! A frame of `frame_size` samples at `sample_rate` gives a spectrum whose
//! bin `i` stands for the frequency `i * sample_rate / frame_size`. The
//! chroma features take in the bins from the one nearest to the lowest
//! frequency up to, and without, the one nearest to the highest.

use vstd::prelude::*;

verus! {

/// Number of notes of an octave, and of chroma bands.
pub const NUM_BANDS: usize = 12;

/// `a / b` rounded to the nearest integer, a half upwards.
pub open spec fn rounded_div(a: int, b: int) -> int {
    (2 * a + b) / (2 * b)
}

/// The bin that is nearest to `freq`: `frame_size * freq / sample_rate`,
/// rounded. Where the sample rate is zero or the bin would not fit, the
/// result is as a conversion from floating point gives it: zero for 0 / 0,
/// the largest number else.
pub open spec fn nearest_bin(freq: int, frame_size: int, sample_rate: int) -> int {
    if sample_rate == 0 {
        if frame_size * freq == 0 {
            0
        } else {
            usize::MAX as int
        }
    } else if rounded_div(frame_size * freq, sample_rate) > usize::MAX {
        usize::MAX as int
    } else {
        rounded_div(frame_size * freq, sample_rate)
    }
}

/// Finds the bin of the spectrum that is nearest to the frequency `freq`.
pub fn freq_to_index(freq: u32, frame_size: usize, sample_rate: u32) -> (index: usize)
    ensures
        index == nearest_bin(freq as int, frame_size as int, sample_rate as int),
{
    proof {
        assert(0 <= (frame_size as int) * (freq as int) <= 0xffff_ffff_ffff_ffff * 0xffff_ffff)
            by (nonlinear_arith)
            requires
                0 <= frame_size <= 0xffff_ffff_ffff_ffff,
                0 <= freq <= 0xffff_ffff,
        ;
    }
    let product: u128 = (frame_size as u128) * (freq as u128);
    if sample_rate == 0 {
        return if product == 0 {
            0
        } else {
            usize::MAX
        };
    }
    let rounded: u128 = (2 * product + sample_rate as u128) / (2 * (sample_rate as u128));
    if rounded > usize::MAX as u128 {
        usize::MAX
    } else {
        rounded as usize
    }
}

/// The first bin that the chroma features take in: the one nearest to
/// `min_freq`, but not bin 0.
pub fn first_bin(min_freq: u32, frame_size: usize, sample_rate: u32) -> (index: usize)
    ensures
        index == if nearest_bin(min_freq as int, frame_size as int, sample_rate as int) >= 1 {
            nearest_bin(min_freq as int, frame_size as int, sample_rate as int)
        } else {
            1
        },
{
    let index: usize = freq_to_index(min_freq, frame_size, sample_rate);
    if index >= 1 {
        index
    } else {
        1
    }
}

/// The bin behind the last that the chroma features take in: the one
/// nearest to `max_freq`, but none beyond half the frame.
pub fn end_bin(max_freq: u32, frame_size: usize, sample_rate: u32) -> (index: usize)
    ensures
        index == if nearest_bin(max_freq as int, frame_size as int, sample_rate as int)
            <= frame_size / 2 {
            nearest_bin(max_freq as int, frame_size as int, sample_rate as int)
        } else {
            frame_size as int / 2
        },
{
    let index: usize = freq_to_index(max_freq, frame_size, sample_rate);
    if index <= frame_size / 2 {
        index
    } else {
        frame_size / 2
    }
}

/// The note next to `note` with which it shares the energy of a bin: the
/// one below where the bin lies in the lower half of the note, the one above
/// else, round the octave.
pub fn neighbour_note(note: usize, below: bool) -> (other: usize)
    requires
        note < NUM_BANDS,
    ensures
        other < NUM_BANDS,
        other == if below {
            (note + NUM_BANDS - 1) % NUM_BANDS as int
        } else {
            (note + 1) % NUM_BANDS as int
        },
{
    if below {
        (note + NUM_BANDS - 1) % NUM_BANDS
    } else {
        (note + 1) % NUM_BANDS
    }
}

} // verus!
