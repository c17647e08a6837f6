//! Matching does not depend on which fingerprint comes first.
//!
//! Where two fingerprints change places, diagonal `d` of the histogram
//! becomes diagonal `n1 + n2 - d`, the aligned stretch is the same, and every
//! segment has its two offsets exchanged. This holds where the best peak of
//! the histogram is the only peak with its number of pairs; of several peaks
//! with the same number the last is taken, which is another one when the
//! fingerprints change places.

use vstd::prelude::*;
use crate::fingerprint_matcher::{
    aligned_len, aligned_offset1, aligned_offset2, best_peak, bit_differences, histogram, is_peak,
    lemma_best_peak, matched_segments, segments_upto, stretch_segments, with_interval, Segment,
};
use crate::offsets::{diagonal_count, diagonal_hit};

verus! {

/// A segment with its two offsets exchanged.
pub open spec fn swapped(segment: Segment) -> Segment {
    Segment {
        offset1: segment.offset2,
        offset2: segment.offset1,
        items_count: segment.items_count,
        bit_errors: segment.bit_errors,
    }
}

/// The segments with their offsets exchanged.
pub open spec fn all_swapped(segments: Seq<Segment>) -> Seq<Segment> {
    Seq::new(segments.len(), |i: int| swapped(segments[i]))
}

/// Whether the best peak of a histogram is the only peak with its number of
/// pairs.
pub open spec fn best_peak_alone(h: Seq<int>) -> bool {
    forall|q: int|
        is_peak(h, q) && q != best_peak(h, h.len() as int) ==> h[q] < h[best_peak(
            h,
            h.len() as int,
        )]
}

/// How many of the items `lo .. hi` of `fp1` have a hit on diagonal `d`.
spec fn hits_between(fp1: Seq<u32>, fp2: Seq<u32>, d: int, lo: int, hi: int) -> int
    decreases hi - lo,
{
    if hi <= lo {
        0
    } else {
        hits_between(fp1, fp2, d, lo, hi - 1) + if diagonal_hit(fp1, fp2, d, hi - 1) {
            1int
        } else {
            0int
        }
    }
}

/// The hits from the first item on are what the histogram counts.
proof fn lemma_hits_from_zero(fp1: Seq<u32>, fp2: Seq<u32>, d: int, k: int)
    requires
        0 <= k,
    ensures
        hits_between(fp1, fp2, d, 0, k) == diagonal_count(fp1, fp2, d, k),
    decreases k,
{
    if k > 0 {
        lemma_hits_from_zero(fp1, fp2, d, k - 1);
    }
}

/// A range without a hit counts none.
proof fn lemma_hits_none(fp1: Seq<u32>, fp2: Seq<u32>, d: int, lo: int, hi: int)
    requires
        forall|i: int| lo <= i < hi ==> !diagonal_hit(fp1, fp2, d, i),
    ensures
        hits_between(fp1, fp2, d, lo, hi) == 0,
    decreases hi - lo,
{
    if lo < hi {
        lemma_hits_none(fp1, fp2, d, lo, hi - 1);
    }
}

/// The hits of a range are the hits of its two parts.
proof fn lemma_hits_split(fp1: Seq<u32>, fp2: Seq<u32>, d: int, lo: int, mid: int, hi: int)
    requires
        lo <= mid <= hi,
    ensures
        hits_between(fp1, fp2, d, lo, hi) == hits_between(fp1, fp2, d, lo, mid) + hits_between(
            fp1,
            fp2,
            d,
            mid,
            hi,
        ),
    decreases hi - mid,
{
    if mid < hi {
        lemma_hits_split(fp1, fp2, d, lo, mid, hi - 1);
    }
}

/// The hits of the one fingerprint on a diagonal are the hits of the other
/// on the opposite diagonal, each moved by the shift between the two.
proof fn lemma_hits_shift(fp1: Seq<u32>, fp2: Seq<u32>, d: int, lo: int, hi: int)
    ensures
        hits_between(fp2, fp1, fp1.len() + fp2.len() - d, lo, hi) == hits_between(
            fp1,
            fp2,
            d,
            lo + d - fp2.len(),
            hi + d - fp2.len(),
        ),
    decreases hi - lo,
{
    if lo < hi {
        lemma_hits_shift(fp1, fp2, d, lo, hi - 1);
        let j = hi - 1;
        let i = j + d - fp2.len();
        assert(diagonal_hit(fp2, fp1, fp1.len() + fp2.len() - d, j) == diagonal_hit(
            fp1,
            fp2,
            d,
            i,
        ));
    }
}

/// The histogram of two fingerprints that changed places is the histogram
/// read backwards.
pub proof fn lemma_histogram_reversed(fp1: Seq<u32>, fp2: Seq<u32>, d: int)
    ensures
        diagonal_count(fp2, fp1, fp1.len() + fp2.len() - d, fp2.len() as int) == diagonal_count(
            fp1,
            fp2,
            d,
            fp1.len() as int,
        ),
{
    let n1 = fp1.len() as int;
    let n2 = fp2.len() as int;
    let c = d - n2;
    lemma_hits_from_zero(fp2, fp1, n1 + n2 - d, n2);
    lemma_hits_from_zero(fp1, fp2, d, n1);
    lemma_hits_shift(fp1, fp2, d, 0, n2);
    // the hits of `fp1` lie where both ranges overlap
    let lo = if c > 0 {
        c
    } else {
        0
    };
    let hi0 = if n1 < n2 + c {
        n1
    } else {
        n2 + c
    };
    let hi = if hi0 < lo {
        lo
    } else {
        hi0
    };
    // 0 .. n1 is 0 .. lo, lo .. hi, hi .. n1
    if lo <= n1 {
        lemma_hits_split(fp1, fp2, d, 0, lo, n1);
        lemma_hits_none(fp1, fp2, d, 0, lo);
        if hi <= n1 {
            lemma_hits_split(fp1, fp2, d, lo, hi, n1);
            lemma_hits_none(fp1, fp2, d, hi, n1);
        }
    } else {
        lemma_hits_none(fp1, fp2, d, 0, n1);
    }
    // c .. n2 + c is c .. lo, lo .. hi, hi .. n2 + c
    if lo <= n2 + c {
        lemma_hits_split(fp1, fp2, d, c, lo, n2 + c);
        lemma_hits_none(fp1, fp2, d, c, lo);
        if hi <= n2 + c {
            lemma_hits_split(fp1, fp2, d, lo, hi, n2 + c);
            lemma_hits_none(fp1, fp2, d, hi, n2 + c);
        }
    } else {
        lemma_hits_none(fp1, fp2, d, c, n2 + c);
    }
    if hi0 < lo {
        lemma_hits_none(fp1, fp2, d, lo, hi);
        if lo > n1 {
        } else if hi > n1 {
            lemma_hits_none(fp1, fp2, d, lo, n1);
        }
        if lo > n2 + c {
        } else if hi > n2 + c {
            lemma_hits_none(fp1, fp2, d, lo, n2 + c);
        }
    }
}

/// No pair lies on diagonal 0.
proof fn lemma_first_diagonal_empty(fp1: Seq<u32>, fp2: Seq<u32>)
    ensures
        diagonal_count(fp1, fp2, 0, fp1.len() as int) == 0,
{
    lemma_hits_from_zero(fp1, fp2, 0, fp1.len() as int);
    lemma_hits_none(fp1, fp2, 0, 0, fp1.len() as int);
}

/// The peaks of the histogram of two fingerprints that changed places are
/// the peaks of the histogram, on the opposite diagonals.
proof fn lemma_peaks_reversed(fp1: Seq<u32>, fp2: Seq<u32>, d: int)
    ensures
        is_peak(histogram(fp2, fp1), fp1.len() + fp2.len() - d) == is_peak(histogram(fp1, fp2), d),
        is_peak(histogram(fp1, fp2), d) ==> histogram(fp2, fp1)[fp1.len() + fp2.len() - d]
            == histogram(fp1, fp2)[d],
        !is_peak(histogram(fp1, fp2), 0),
{
    let total = (fp1.len() + fp2.len()) as int;
    let h = histogram(fp1, fp2);
    let g = histogram(fp2, fp1);
    lemma_first_diagonal_empty(fp1, fp2);
    lemma_first_diagonal_empty(fp2, fp1);
    if 0 < d < total {
        lemma_histogram_reversed(fp1, fp2, d);
        lemma_histogram_reversed(fp1, fp2, d - 1);
        lemma_histogram_reversed(fp1, fp2, d + 1);
        assert(g[total - d] == h[d]);
        if d + 1 < total {
            assert(g[total - d - 1] == h[d + 1]);
        }
        if d - 1 > 0 {
            assert(g[total - d + 1] == h[d - 1]);
        } else {
            assert(h[0] == 0);
        }
        if total - d - 1 == 0 {
            assert(g[0] == 0);
        }
    } else if d == 0 {
        if total > 0 {
            assert(h[0] == 0);
        }
    } else if d == total {
        if total > 0 {
            assert(g[0] == 0);
        }
    }
}

/// The best peak of two fingerprints that changed places lies on the
/// opposite diagonal, where the best peak is the only one with its number of
/// pairs.
proof fn lemma_best_peak_reversed(fp1: Seq<u32>, fp2: Seq<u32>)
    requires
        best_peak_alone(histogram(fp1, fp2)),
    ensures
        best_peak(histogram(fp1, fp2), (fp1.len() + fp2.len()) as int) < 0 ==> best_peak(
            histogram(fp2, fp1),
            (fp1.len() + fp2.len()) as int,
        ) < 0,
        best_peak(histogram(fp1, fp2), (fp1.len() + fp2.len()) as int) >= 0 ==> best_peak(
            histogram(fp2, fp1),
            (fp1.len() + fp2.len()) as int,
        ) == (fp1.len() + fp2.len()) as int - best_peak(histogram(fp1, fp2), (fp1.len() + fp2.len()) as int),
{
    let total = (fp1.len() + fp2.len()) as int;
    let h = histogram(fp1, fp2);
    let g = histogram(fp2, fp1);
    let p = best_peak(h, total);
    let q = best_peak(g, total);
    lemma_best_peak(h, total);
    lemma_best_peak(g, total);
    if q >= 0 {
        // the peak that was taken for the fingerprints in the other order
        // is a peak here
        lemma_peaks_reversed(fp1, fp2, total - q);
        assert(is_peak(h, total - q));
        assert(p >= 0);
    }
    if p >= 0 {
        lemma_peaks_reversed(fp1, fp2, p);
        assert(is_peak(g, total - p));
        assert(q >= 0);
        lemma_peaks_reversed(fp1, fp2, total - q);
        if q != total - p {
            assert(h[total - q] < h[p]);
            assert(g[q] == h[total - q]);
            assert(g[total - p] == h[p]);
        }
    }
}

/// Two items differ in the same bits in either order.
proof fn lemma_xor_commutes(a: u32, b: u32)
    by (bit_vector)
    ensures
        a ^ b == b ^ a,
{
}

/// The segments of a stretch with the offsets exchanged are the segments
/// with their offsets exchanged.
proof fn lemma_segments_swapped(bits: Seq<int>, o1: int, o2: int, c: Seq<int>, k: int)
    requires
        0 <= k <= c.len(),
    ensures
        segments_upto(bits, o2, o1, c, k) == all_swapped(segments_upto(bits, o1, o2, c, k)),
    decreases k,
{
    if k > 0 {
        lemma_segments_swapped(bits, o1, o2, c, k - 1);
        let begin = if k == 1 {
            0
        } else {
            c[k - 2]
        };
        let end = c[k - 1];
        let found = segments_upto(bits, o1, o2, c, k - 1);
        let mirrored = segments_upto(bits, o2, o1, c, k - 1);
        let next = with_interval(found, bits, o1, o2, begin, end);
        let mirrored_next = with_interval(mirrored, bits, o2, o1, begin, end);
        if found.len() > 0 {
            assert(mirrored.last() == swapped(found.last()));
        }
        assert(mirrored_next =~= all_swapped(next));
    } else {
        assert(segments_upto(bits, o2, o1, c, k) =~= all_swapped(
            segments_upto(bits, o1, o2, c, k),
        ));
    }
}

/// Where two fingerprints change places, the segments in which they are
/// alike have their two offsets exchanged, and are the same else.
///
/// This holds where the best peak of the histogram is the only peak with its
/// number of pairs.
pub proof fn lemma_match_symmetry(fp1: Seq<u32>, fp2: Seq<u32>)
    requires
        best_peak_alone(histogram(fp1, fp2)),
    ensures
        matched_segments(fp2, fp1) == all_swapped(matched_segments(fp1, fp2)),
{
    let n1 = fp1.len() as int;
    let n2 = fp2.len() as int;
    let total = n1 + n2;
    let p = best_peak(histogram(fp1, fp2), total);
    let q = best_peak(histogram(fp2, fp1), total);
    lemma_best_peak_reversed(fp1, fp2);
    lemma_best_peak(histogram(fp1, fp2), total);
    if p < 0 {
        assert(matched_segments(fp2, fp1) =~= all_swapped(matched_segments(fp1, fp2)));
    } else {
        let o1 = aligned_offset1(n2, p);
        let o2 = aligned_offset2(n2, p);
        let len = aligned_len(n1, n2, p);
        assert(aligned_offset1(n1, q) == o2);
        assert(aligned_offset2(n1, q) == o1);
        assert(aligned_len(n2, n1, q) == len);
        let bits = bit_differences(fp1, fp2, o1, o2, len);
        let mirrored = bit_differences(fp2, fp1, o2, o1, len);
        assert forall|i: int| 0 <= i < len implies mirrored[i] == bits[i] by {
            lemma_xor_commutes(fp1[o1 + i], fp2[o2 + i]);
        }
        assert(mirrored =~= bits);
        let scale = crate::gaussian::gaussian_scale(
            crate::fingerprint_matcher::SMOOTHING_SIGMA as int,
            1,
            crate::fingerprint_matcher::SMOOTHING_PASSES as int,
        );
        let smoothed = crate::gaussian::gaussian(
            bits,
            crate::fingerprint_matcher::SMOOTHING_SIGMA as int,
            1,
            crate::fingerprint_matcher::SMOOTHING_PASSES as int,
        );
        let steepness = crate::gradient::doubled_gradient(smoothed).map_values(
            |g: int| crate::fingerprint_matcher::magnitude(g),
        );
        let c = crate::fingerprint_matcher::cuts(steepness, scale);
        lemma_segments_swapped(bits, o1, o2, c, c.len() as int);
    }
}

} // verus!
