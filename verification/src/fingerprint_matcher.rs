//! Finding the segments in which two fingerprints are alike.
//!
//! The fingerprints are first aligned: the diagonal on which most items with
//! equal strips meet gives the shift between them. Along that diagonal the
//! number of differing bits per item is smoothed, the places where the
//! smoothed curve is steepest cut it into intervals, and every interval whose
//! items differ in fewer than ten bits on average becomes a segment.
//!
//! All of it is integer arithmetic: a score is kept as the pair of the
//! differing bits and the number of items, and the smoothed curve as window
//! sums with their scale, so that no comparison depends on rounding.

use vstd::prelude::*;
use crate::gaussian::{gaussian, gaussian_filter, gaussian_scale, ints};
use crate::gradient::{doubled_gradient, gradient};
use crate::fingerprinter::Configuration;
use crate::offsets::{alignment_histogram, diagonal_count, OFFSET_LIMIT};

verus! {

/// Why two fingerprints could not be matched.
#[derive(Debug, Clone, Copy, PartialEq, Eq, Structural)]
pub enum MatchError {
    /// The fingerprint with this index (0 or 1) has too many items for the
    /// position field of the offset table.
    FingerprintTooLong { index: u8 },
}

/// A stretch of items that is alike in both fingerprints.
#[derive(Debug, Clone, Copy, PartialEq, Eq, Structural)]
pub struct Segment {
    /// Index of the first item in the first fingerprint.
    pub offset1: usize,
    /// Index of the first item in the second fingerprint.
    pub offset2: usize,
    /// Number of items of the segment.
    pub items_count: usize,
    /// Number of bits in which the items of the two fingerprints differ, all
    /// items together. The score of the segment is this number over
    /// `items_count`: between 0 and 32, the lower the more alike.
    pub bit_errors: u64,
}

/// Deviation of the Gaussian that smooths the bit differences.
pub const SMOOTHING_SIGMA: u16 = 8;

/// Number of box passes that stand for the Gaussian.
pub const SMOOTHING_PASSES: usize = 3;

/// A segment's score must be below this.
pub const MATCH_THRESHOLD: u64 = 10;

/// The number of set bits of `x`.
pub open spec fn popcount(x: u32) -> nat
    decreases x,
{
    if x == 0 {
        0
    } else {
        (x % 2) as nat + popcount(x / 2)
    }
}

/// The histogram of two fingerprints: for every diagonal the number of pairs
/// of items with equal strips on it.
pub open spec fn histogram(fp1: Seq<u32>, fp2: Seq<u32>) -> Seq<int> {
    Seq::new(fp1.len() + fp2.len(), |d: int| diagonal_count(fp1, fp2, d, fp1.len() as int))
}

/// A peak of the histogram: more than one pair, and no fewer than on either
/// neighbouring diagonal.
pub open spec fn is_peak(h: Seq<int>, i: int) -> bool {
    &&& 0 <= i < h.len()
    &&& h[i] > 1
    &&& (i > 0 ==> h[i - 1] <= h[i])
    &&& (i < h.len() - 1 ==> h[i + 1] <= h[i])
}

/// The best peak among the first `k` diagonals, or -1 where they hold none:
/// the one with the most pairs, and of several such the last.
pub open spec fn best_peak(h: Seq<int>, k: int) -> int
    decreases k,
{
    if k <= 0 {
        -1
    } else {
        let best = best_peak(h, k - 1);
        if is_peak(h, k - 1) && (best < 0 || h[k - 1] >= h[best]) {
            k - 1
        } else {
            best
        }
    }
}

/// Where the aligned stretch begins in the first fingerprint, for the peak
/// at diagonal `peak`.
pub open spec fn aligned_offset1(n2: int, peak: int) -> int {
    if peak > n2 {
        peak - n2
    } else {
        0
    }
}

/// Where the aligned stretch begins in the second fingerprint.
pub open spec fn aligned_offset2(n2: int, peak: int) -> int {
    if peak < n2 {
        n2 - peak
    } else {
        0
    }
}

/// How many items the aligned stretch has.
pub open spec fn aligned_len(n1: int, n2: int, peak: int) -> int {
    let a = n1 - aligned_offset1(n2, peak);
    let b = n2 - aligned_offset2(n2, peak);
    if a <= b {
        a
    } else {
        b
    }
}

/// The number of differing bits of each pair of items of the aligned stretch.
pub open spec fn bit_differences(fp1: Seq<u32>, fp2: Seq<u32>, o1: int, o2: int, len: int) -> Seq<
    int,
> {
    Seq::new(len as nat, |i: int| popcount(fp1[o1 + i] ^ fp2[o2 + i]) as int)
}

/// The absolute value.
pub open spec fn magnitude(x: int) -> int {
    if x < 0 {
        -x
    } else {
        x
    }
}

/// Whether the curve is steepest at `i`: not at an end, the gradient above
/// 0.15 in magnitude, and no smaller than at either neighbour. `steepness`
/// holds twice the magnitude of the gradient times `scale`.
pub open spec fn is_steep(steepness: Seq<int>, scale: int, i: int) -> bool {
    &&& 0 < i < steepness.len() - 1
    &&& 10 * steepness[i] > 3 * scale
    &&& steepness[i] >= steepness[i - 1]
    &&& steepness[i] >= steepness[i + 1]
}

/// The cuts among the first `k` positions: the steepest places, each at
/// least two positions after the cut before it.
pub open spec fn cuts_upto(steepness: Seq<int>, scale: int, k: int) -> Seq<int>
    decreases k,
{
    if k <= 0 {
        Seq::empty()
    } else {
        let before = cuts_upto(steepness, scale, k - 1);
        if is_steep(steepness, scale, k - 1) && (before.len() == 0 || before.last() + 1 < k - 1) {
            before.push(k - 1)
        } else {
            before
        }
    }
}

/// All cuts of a curve, and its length as the last one.
pub open spec fn cuts(steepness: Seq<int>, scale: int) -> Seq<int> {
    cuts_upto(steepness, scale, steepness.len() as int).push(steepness.len() as int)
}

/// The sum of the items `begin .. end` of `s`.
pub open spec fn range_sum(s: Seq<int>, begin: int, end: int) -> int
    decreases end - begin,
{
    if end <= begin {
        0
    } else {
        range_sum(s, begin, end - 1) + s[end - 1]
    }
}

impl Segment {
    /// What holds of every segment of two fingerprints that can be matched:
    /// it is not empty, it lies inside both, and no item differs in more
    /// than 32 bits.
    pub open spec fn wf(&self) -> bool {
        &&& self.items_count >= 1
        &&& self.offset1 + self.items_count < OFFSET_LIMIT
        &&& self.offset2 + self.items_count < OFFSET_LIMIT
        &&& self.bit_errors <= 32 * self.items_count
    }

    /// Whether `other` begins in both fingerprints where `self` ends.
    pub open spec fn continued_by(&self, other: &Segment) -> bool {
        &&& self.offset1 + self.items_count == other.offset1
        &&& self.offset2 + self.items_count == other.offset2
    }

    /// The two segments as one. Its score is the mean of the two scores,
    /// weighted by the numbers of items.
    pub open spec fn joined(&self, other: &Segment) -> Segment {
        Segment {
            offset1: self.offset1,
            offset2: self.offset2,
            items_count: (self.items_count + other.items_count) as usize,
            bit_errors: (self.bit_errors + other.bit_errors) as u64,
        }
    }

    /// Whether the scores of the two segments differ by less than 0.7.
    pub open spec fn score_near(&self, other: &Segment) -> bool {
        10 * magnitude(self.bit_errors * other.items_count - other.bit_errors * self.items_count)
            < 7 * (self.items_count * other.items_count)
    }

    /// Merges two segments where the second continues the first in both
    /// fingerprints.
    pub fn try_merge(&self, other: &Self) -> (merged: Option<Self>)
        requires
            self.wf(),
            other.wf(),
        ensures
            merged == if self.continued_by(other) {
                Some(self.joined(other))
            } else {
                None
            },
            merged is Some ==> merged->0.wf(),
    {
        if self.offset1 + self.items_count != other.offset1 {
            return None;
        }
        if self.offset2 + self.items_count != other.offset2 {
            return None;
        }
        let new_duration: usize = self.items_count + other.items_count;
        let new_errors: u64 = self.bit_errors + other.bit_errors;
        Some(
            Segment {
                offset1: self.offset1,
                offset2: self.offset2,
                items_count: new_duration,
                bit_errors: new_errors,
            },
        )
    }

    /// Tells whether the scores of two segments differ by less than 0.7.
    pub fn is_score_near(&self, other: &Self) -> (near: bool)
        requires
            self.wf(),
            other.wf(),
        ensures
            near == self.score_near(other),
    {
        proof {
            assert(self.bit_errors * other.items_count <= 0x1_0000_0000 * 0x1_0000_0000)
                by (nonlinear_arith)
                requires
                    0 <= self.bit_errors <= 0x1_0000_0000,
                    0 <= other.items_count <= 0x1_0000_0000,
            ;
            assert(other.bit_errors * self.items_count <= 0x1_0000_0000 * 0x1_0000_0000)
                by (nonlinear_arith)
                requires
                    0 <= other.bit_errors <= 0x1_0000_0000,
                    0 <= self.items_count <= 0x1_0000_0000,
            ;
            assert(self.items_count * other.items_count <= 0x1_0000_0000 * 0x1_0000_0000)
                by (nonlinear_arith)
                requires
                    0 <= self.items_count <= 0x1_0000_0000,
                    0 <= other.items_count <= 0x1_0000_0000,
            ;
        }
        let a: u128 = (self.bit_errors as u128) * (other.items_count as u128);
        let b: u128 = (other.bit_errors as u128) * (self.items_count as u128);
        let difference: u128 = if a >= b {
            a - b
        } else {
            b - a
        };
        let counts: u128 = (self.items_count as u128) * (other.items_count as u128);
        10 * difference < 7 * counts
    }
}

/// Adds the interval `begin .. end` of the aligned stretch to the segments
/// found so far: nothing where its items differ in ten bits or more on
/// average; else a segment of its own, or one with the last segment where it
/// continues that one and their scores differ by less than 0.7.
pub open spec fn with_interval(
    found: Seq<Segment>,
    bits: Seq<int>,
    o1: int,
    o2: int,
    begin: int,
    end: int,
) -> Seq<Segment> {
    let errors = range_sum(bits, begin, end);
    let segment = Segment {
        offset1: (o1 + begin) as usize,
        offset2: (o2 + begin) as usize,
        items_count: (end - begin) as usize,
        bit_errors: errors as u64,
    };
    if errors < MATCH_THRESHOLD * (end - begin) {
        if found.len() > 0 && found.last().score_near(&segment) && found.last().continued_by(
            &segment,
        ) {
            found.drop_last().push(found.last().joined(&segment))
        } else {
            found.push(segment)
        }
    } else {
        found
    }
}

/// The segments of the first `k` intervals that the cuts make.
pub open spec fn segments_upto(bits: Seq<int>, o1: int, o2: int, cuts: Seq<int>, k: int) -> Seq<
    Segment,
>
    decreases k,
{
    if k <= 0 {
        Seq::empty()
    } else {
        let begin = if k == 1 {
            0
        } else {
            cuts[k - 2]
        };
        with_interval(segments_upto(bits, o1, o2, cuts, k - 1), bits, o1, o2, begin, cuts[k - 1])
    }
}

/// The segments of an aligned stretch whose items differ in `bits` bits.
pub open spec fn stretch_segments(bits: Seq<int>, o1: int, o2: int) -> Seq<Segment> {
    let scale = gaussian_scale(SMOOTHING_SIGMA as int, 1, SMOOTHING_PASSES as int);
    let smoothed = gaussian(bits, SMOOTHING_SIGMA as int, 1, SMOOTHING_PASSES as int);
    let steepness = doubled_gradient(smoothed).map_values(|g: int| magnitude(g));
    let c = cuts(steepness, scale);
    segments_upto(bits, o1, o2, c, c.len() as int)
}

/// The segments in which two fingerprints are alike: those of the stretch
/// that the best peak of their histogram aligns, and none where the
/// histogram has no peak.
pub open spec fn matched_segments(fp1: Seq<u32>, fp2: Seq<u32>) -> Seq<Segment> {
    let n1 = fp1.len() as int;
    let n2 = fp2.len() as int;
    let peak = best_peak(histogram(fp1, fp2), n1 + n2);
    if peak < 0 {
        Seq::empty()
    } else {
        let o1 = aligned_offset1(n2, peak);
        let o2 = aligned_offset2(n2, peak);
        stretch_segments(bit_differences(fp1, fp2, o1, o2, aligned_len(n1, n2, peak)), o1, o2)
    }
}

/// A number below `2^k` has `k` set bits at most.
proof fn lemma_popcount_bound(x: u32, k: nat)
    requires
        x < vstd::arithmetic::power2::pow2(k),
    ensures
        popcount(x) <= k,
    decreases k,
{
    vstd::arithmetic::power2::lemma2_to64();
    if x != 0 {
        if k == 0 {
            assert(false);
        } else {
            vstd::arithmetic::power2::lemma_pow2_unfold(k);
            lemma_popcount_bound(x / 2, (k - 1) as nat);
        }
    }
}

/// Counts the set bits of `x`.
pub fn count_ones(x: u32) -> (count: u32)
    ensures
        count == popcount(x),
        count <= 32,
{
    let mut rest: u32 = x;
    let mut count: u32 = 0;
    proof {
        vstd::arithmetic::power2::lemma2_to64();
        lemma_popcount_bound(x, 32);
    }
    while rest != 0
        invariant
            count + popcount(rest) == popcount(x),
            popcount(x) <= 32,
        decreases rest,
    {
        count += rest % 2;
        rest = rest / 2;
    }
    count
}

/// The strip of a sub-fingerprint, by which items are aligned: its top
/// twelve bits.
pub fn align_strip(x: u32) -> (strip: u32)
    ensures
        strip == x >> 20,
        strip == crate::offsets::strip(x),
        strip < 4096,
{
    assert(x >> 20 == x / 0x10_0000 && x >> 20 < 4096) by (bit_vector);
    x >> (32 - crate::offsets::ALIGN_BITS)
}

/// What `best_peak` chooses is a peak, and no peak has more pairs, nor as
/// many on a later diagonal.
pub proof fn lemma_best_peak(h: Seq<int>, k: int)
    requires
        0 <= k <= h.len(),
    ensures
        -1 <= best_peak(h, k) < k,
        best_peak(h, k) >= 0 ==> is_peak(h, best_peak(h, k)),
        forall|i: int|
            0 <= i < k && is_peak(h, i) ==> best_peak(h, k) >= 0 && (h[i] < h[best_peak(h, k)]
                || (h[i] == h[best_peak(h, k)] && i <= best_peak(h, k))),
    decreases k,
{
    if k > 0 {
        lemma_best_peak(h, k - 1);
    }
}

/// Finds the diagonal of the best peak of a histogram: of the diagonals with
/// more than one pair and no fewer than either neighbour, the one with most
/// pairs, and of several such the last.
pub fn best_alignment(histogram: &Vec<u32>) -> (best: Option<usize>)
    ensures
        best is None <==> best_peak(histogram@.map_values(|c: u32| c as int), histogram@.len() as int) < 0,
        best is Some ==> best->0 == best_peak(
            histogram@.map_values(|c: u32| c as int),
            histogram@.len() as int,
        ),
{
    let size: usize = histogram.len();
    let ghost h = histogram@.map_values(|c: u32| c as int);
    let mut best: Option<usize> = None;
    let mut best_count: u32 = 0;
    let mut i: usize = 0;
    while i < size
        invariant
            i <= size,
            size == histogram@.len(),
            h == histogram@.map_values(|c: u32| c as int),
            best is None <==> best_peak(h, i as int) < 0,
            best is Some ==> best->0 == best_peak(h, i as int) && best->0 < i && best_count
                == histogram@[best->0 as int],
        decreases size - i,
    {
        let count: u32 = histogram[i];
        if count > 1 {
            let is_peak_left: bool = if i > 0 {
                histogram[i - 1] <= count
            } else {
                true
            };
            let is_peak_right: bool = if i < size - 1 {
                histogram[i + 1] <= count
            } else {
                true
            };
            if is_peak_left && is_peak_right {
                assert(is_peak(h, i as int));
                if best.is_none() || count >= best_count {
                    best = Some(i);
                    best_count = count;
                }
            }
        }
        i += 1;
    }
    best
}

/// The number of differing bits of each of the `size` pairs of items that
/// begin at `offset1` of `fp1` and `offset2` of `fp2`.
pub fn count_bit_differences(
    fp1: &[u32],
    fp2: &[u32],
    offset1: usize,
    offset2: usize,
    size: usize,
) -> (bits: Vec<u64>)
    requires
        offset1 + size <= fp1@.len(),
        offset2 + size <= fp2@.len(),
    ensures
        bits@.len() == size,
        ints(bits@) == bit_differences(fp1@, fp2@, offset1 as int, offset2 as int, size as int),
        forall|i: int| 0 <= i < bits@.len() ==> #[trigger] bits@[i] <= 32,
{
    let n1: usize = fp1.len();
    let n2: usize = fp2.len();
    let mut bits: Vec<u64> = Vec::new();
    let mut i: usize = 0;
    while i < size
        invariant
            i <= size,
            offset1 + size <= n1 == fp1@.len(),
            offset2 + size <= n2 == fp2@.len(),
            bits@.len() == i,
            forall|k: int|
                0 <= k < i ==> #[trigger] bits@[k] == popcount(
                    fp1@[offset1 + k] ^ fp2@[offset2 + k],
                ),
            forall|k: int| 0 <= k < i ==> #[trigger] bits@[k] <= 32,
        decreases size - i,
    {
        bits.push(count_ones(fp1[offset1 + i] ^ fp2[offset2 + i]) as u64);
        i += 1;
    }
    assert(ints(bits@) =~= bit_differences(
        fp1@,
        fp2@,
        offset1 as int,
        offset2 as int,
        size as int,
    ));
    bits
}

/// The items of `s` as mathematical integers.
pub open spec fn wide_ints(s: Seq<u128>) -> Seq<int> {
    Seq::new(s.len(), |i: int| s[i] as int)
}

/// The positions of `s` as mathematical integers.
pub open spec fn positions(s: Seq<usize>) -> Seq<int> {
    Seq::new(s.len(), |i: int| s[i] as int)
}

/// How steep a smoothed curve is at each of its items: twice the magnitude
/// of its gradient.
pub fn steepness(smoothed: &[u64]) -> (steep: Vec<u128>)
    ensures
        wide_ints(steep@) == doubled_gradient(ints(smoothed@)).map_values(|g: int| magnitude(g)),
{
    let size: usize = smoothed.len();
    let mut grad: Vec<i128> = Vec::with_capacity(size);
    gradient(smoothed, &mut grad);
    let ghost s = ints(smoothed@);
    assert(s =~= Seq::new(smoothed@.len(), |k: int| smoothed@[k] as int));
    assert forall|k: int| 0 <= k < size implies #[trigger] grad@[k] == doubled_gradient(s)[k] by {
        assert(grad@[0 + k] == doubled_gradient(s)[k]);
    }
    let mut steep: Vec<u128> = Vec::with_capacity(size);
    let mut i: usize = 0;
    while i < size
        invariant
            i <= size,
            size == smoothed@.len(),
            grad@.len() == size,
            s == ints(smoothed@),
            forall|k: int| 0 <= k < size ==> #[trigger] grad@[k] == doubled_gradient(s)[k],
            steep@.len() == i,
            forall|k: int| 0 <= k < i ==> #[trigger] steep@[k] == magnitude(doubled_gradient(s)[k]),
        decreases size - i,
    {
        let g: i128 = grad[i];
        let a: u128 = if g < 0 {
            (-g) as u128
        } else {
            g as u128
        };
        steep.push(a);
        i += 1;
    }
    assert(wide_ints(steep@) =~= doubled_gradient(s).map_values(|g: int| magnitude(g)));
    steep
}

/// The cuts are positions of the curve in ascending order.
pub proof fn lemma_cuts_ascend(steepness: Seq<int>, scale: int, k: int)
    requires
        0 <= k <= steepness.len(),
    ensures
        forall|i: int|
            0 <= i < cuts_upto(steepness, scale, k).len() ==> 0 < #[trigger] cuts_upto(
                steepness,
                scale,
                k,
            )[i] < k && cuts_upto(steepness, scale, k)[i] < steepness.len() - 1,
        forall|i: int, j: int|
            0 <= i < j < cuts_upto(steepness, scale, k).len() ==> cuts_upto(steepness, scale, k)[i]
                < cuts_upto(steepness, scale, k)[j],
        cuts_upto(steepness, scale, k).len() <= k,
    decreases k,
{
    if k > 0 {
        lemma_cuts_ascend(steepness, scale, k - 1);
    }
}

/// Finds the cuts of a curve from its steepness: the positions that are not
/// at an end, where the gradient is above 0.15 in magnitude and no smaller
/// than at either neighbour, each at least two positions after the cut
/// before it; and the length of the curve as the last cut.
pub fn find_cuts(steep: &Vec<u128>, scale: u64) -> (found: Vec<usize>)
    ensures
        positions(found@) == cuts(wide_ints(steep@), scale as int),
        found@.len() >= 1,
        found@[found@.len() - 1] == steep@.len(),
        forall|i: int, j: int| 0 <= i <= j < found@.len() ==> found@[i] <= found@[j],
{
    let size: usize = steep.len();
    let floor: u128 = 3 * (scale as u128) / 10;
    let ghost s = wide_ints(steep@);
    let mut found: Vec<usize> = Vec::new();
    let mut i: usize = 0;
    while i < size
        invariant
            i <= size,
            size == steep@.len(),
            s == wide_ints(steep@),
            floor == 3 * scale / 10,
            positions(found@) == cuts_upto(s, scale as int, i as int),
        decreases size - i,
    {
        let gi: u128 = steep[i];
        proof {
            lemma_cuts_ascend(s, scale as int, i as int);
            let before = cuts_upto(s, scale as int, i as int);
            if before.len() > 0 {
                assert(before.last() == positions(found@)[found@.len() - 1]);
                assert(before[before.len() - 1] < i);
            }
        }
        let last_far: bool = found.len() == 0 || found[found.len() - 1] + 1 < i;
        proof {
            assert(s[i as int] == gi);
            if 0 < i && i < size - 1 {
                assert(s[i - 1] == steep@[i - 1]);
                assert(s[i + 1] == steep@[i + 1]);
            }
        }
        if i > 0 && i < size - 1 && gi > floor && gi >= steep[i - 1] && gi >= steep[i + 1]
            && last_far {
            found.push(i);
            assert(positions(found@) =~= cuts_upto(s, scale as int, i as int).push(i as int));
        }
        i += 1;
    }
    found.push(size);
    proof {
        lemma_cuts_ascend(s, scale as int, size as int);
        assert(positions(found@) =~= cuts(s, scale as int));
        let c = cuts_upto(s, scale as int, size as int);
        assert forall|a: int, b: int| 0 <= a <= b < found@.len() implies found@[a] <= found@[b] by {
            assert(positions(found@)[a] == found@[a]);
            assert(positions(found@)[b] == found@[b]);
            if b < c.len() {
                assert(c[a] <= c[b]);
            } else if a < c.len() {
                assert(c[a] < size);
            }
        }
    }
    found
}

/// Items of up to 32 sum to 32 times their number at most.
proof fn lemma_range_sum_bound(s: Seq<int>, begin: int, end: int)
    requires
        0 <= begin <= end <= s.len(),
        forall|i: int| 0 <= i < s.len() ==> 0 <= #[trigger] s[i] <= 32,
    ensures
        0 <= range_sum(s, begin, end) <= 32 * (end - begin),
    decreases end - begin,
{
    if begin < end {
        lemma_range_sum_bound(s, begin, end - 1);
    }
}

/// Adds up the items `begin .. end` of `bits`.
fn sum_range(bits: &Vec<u64>, begin: usize, end: usize) -> (sum: u64)
    requires
        begin <= end <= bits@.len() < OFFSET_LIMIT,
        forall|i: int| 0 <= i < bits@.len() ==> #[trigger] bits@[i] <= 32,
    ensures
        sum == range_sum(ints(bits@), begin as int, end as int),
        sum <= 32 * (end - begin),
{
    let mut sum: u64 = 0;
    let mut i: usize = begin;
    while i < end
        invariant
            begin <= i <= end <= bits@.len() < OFFSET_LIMIT,
            forall|k: int| 0 <= k < bits@.len() ==> #[trigger] bits@[k] <= 32,
            sum == range_sum(ints(bits@), begin as int, i as int),
            sum <= 32 * (i - begin),
        decreases end - i,
    {
        assert(ints(bits@)[i as int] == bits@[i as int]);
        sum += bits[i];
        i += 1;
    }
    sum
}

/// Turns the intervals between the cuts of an aligned stretch into segments.
fn collect_segments(bits: &Vec<u64>, cuts: &Vec<usize>, offset1: usize, offset2: usize) -> (segments:
    Vec<Segment>)
    requires
        offset1 + bits@.len() < OFFSET_LIMIT,
        offset2 + bits@.len() < OFFSET_LIMIT,
        forall|i: int| 0 <= i < bits@.len() ==> #[trigger] bits@[i] <= 32,
        forall|i: int, j: int| 0 <= i <= j < cuts@.len() ==> cuts@[i] <= cuts@[j],
        forall|i: int| 0 <= i < cuts@.len() ==> #[trigger] cuts@[i] <= bits@.len(),
    ensures
        segments@ == segments_upto(
            ints(bits@),
            offset1 as int,
            offset2 as int,
            positions(cuts@),
            cuts@.len() as int,
        ),
        forall|i: int| 0 <= i < segments@.len() ==> (#[trigger] segments@[i]).wf(),
{
    let mut segments: Vec<Segment> = Vec::new();
    let mut begin: usize = 0;
    let mut k: usize = 0;
    let ghost b = ints(bits@);
    let ghost c = positions(cuts@);
    while k < cuts.len()
        invariant
            k <= cuts@.len(),
            b == ints(bits@),
            c == positions(cuts@),
            offset1 + bits@.len() < OFFSET_LIMIT,
            offset2 + bits@.len() < OFFSET_LIMIT,
            forall|i: int| 0 <= i < bits@.len() ==> #[trigger] bits@[i] <= 32,
            forall|i: int, j: int| 0 <= i <= j < cuts@.len() ==> cuts@[i] <= cuts@[j],
            forall|i: int| 0 <= i < cuts@.len() ==> #[trigger] cuts@[i] <= bits@.len(),
            begin == if k == 0 {
                0
            } else {
                cuts@[k - 1] as int
            },
            segments@ == segments_upto(b, offset1 as int, offset2 as int, c, k as int),
            forall|i: int| 0 <= i < segments@.len() ==> (#[trigger] segments@[i]).wf(),
        decreases cuts@.len() - k,
    {
        let end: usize = cuts[k];
        let ghost found = segments@;
        proof {
            assert(c[k as int] == end);
            if k > 0 {
                assert(c[k - 1] == begin);
                assert(cuts@[k - 1] <= cuts@[k as int]);
            }
            assert(segments_upto(b, offset1 as int, offset2 as int, c, k + 1) == with_interval(
                found,
                b,
                offset1 as int,
                offset2 as int,
                begin as int,
                end as int,
            ));
        }
        let duration: usize = end - begin;
        let errors: u64 = sum_range(bits, begin, end);
        if errors < MATCH_THRESHOLD * (duration as u64) {
            let segment = Segment {
                offset1: offset1 + begin,
                offset2: offset2 + begin,
                items_count: duration,
                bit_errors: errors,
            };
            let mut added: bool = false;
            let count: usize = segments.len();
            if count > 0 {
                let last: Segment = segments[count - 1];
                if last.is_score_near(&segment) {
                    match last.try_merge(&segment) {
                        Some(merged) => {
                            segments.set(count - 1, merged);
                            added = true;
                            assert(segments@ =~= found.drop_last().push(merged));
                        },
                        None => {},
                    }
                }
            }
            if !added {
                segments.push(segment);
            }
        }
        begin = end;
        k += 1;
    }
    segments
}

/// The plan of box filters for `SMOOTHING_SIGMA` in `SMOOTHING_PASSES`
/// passes: two passes of width 15 and one of width 17, with the scale 3825.
pub proof fn lemma_smoothing_plan()
    ensures
        crate::gaussian::lower_width(SMOOTHING_SIGMA as int, 1, SMOOTHING_PASSES as int) == 15,
        crate::gaussian::upper_width(SMOOTHING_SIGMA as int, 1, SMOOTHING_PASSES as int) == 17,
        crate::gaussian::lower_passes(SMOOTHING_SIGMA as int, 1, SMOOTHING_PASSES as int) == 2,
        gaussian_scale(SMOOTHING_SIGMA as int, 1, SMOOTHING_PASSES as int) == 3825,
{
    assert(12 * 8 * 8 + 3 * 1 * 1 == 771 && 3 * 1 * 1 == 3) by (nonlinear_arith);
    assert(771int / 3 == 257);
    assert(16 * 16 <= 257 < (16 + 1) * (16 + 1)) by (nonlinear_arith);
    crate::gaussian::lemma_isqrt_unique(257, 16);
    assert(crate::gaussian::ideal_width(8, 1, 3) == 16);
    assert(crate::gaussian::lower_width(8, 1, 3) == 15);
    let a = 3 * (15 * 15 + 4 * 15 + 3) * (1 * 1) - 12 * (8 * 8);
    let b = (4 * 15 + 4) * (1 * 1);
    assert(a == 96 && b == 64) by (nonlinear_arith)
        requires
            a == 3 * (15 * 15 + 4 * 15 + 3) * (1 * 1) - 12 * (8 * 8),
            b == (4 * 15 + 4) * (1 * 1),
    ;
    assert(2 * a + b == 256 && 2 * b == 128);
    assert(256int / 128 == 2);
    assert(crate::gaussian::lower_passes(8, 1, 3) == 2);
    assert(crate::gaussian::smooth_scale(15, 17, 2, 0) == 1);
    assert(crate::gaussian::smooth_scale(15, 17, 2, 1) == 15);
    assert(crate::gaussian::smooth_scale(15, 17, 2, 2) == 225);
    assert(crate::gaussian::smooth_scale(15, 17, 2, 3) == 3825);
}

/// The segments of the stretch of `size` items that begins at `offset1` of
/// `fp1` and at `offset2` of `fp2`.
fn score_stretch(fp1: &[u32], fp2: &[u32], offset1: usize, offset2: usize, size: usize) -> (segments:
    Vec<Segment>)
    requires
        offset1 + size <= fp1@.len(),
        offset2 + size <= fp2@.len(),
        fp1@.len() + 1 < OFFSET_LIMIT,
        fp2@.len() + 1 < OFFSET_LIMIT,
    ensures
        segments@ == stretch_segments(
            bit_differences(fp1@, fp2@, offset1 as int, offset2 as int, size as int),
            offset1 as int,
            offset2 as int,
        ),
        forall|i: int| 0 <= i < segments@.len() ==> (#[trigger] segments@[i]).wf(),
{
    let bit_counts = count_bit_differences(fp1, fp2, offset1, offset2, size);
    let mut working = bit_counts.clone();
    let mut smoothed_bit_counts = crate::offsets::zeros64(size);
    proof {
        lemma_smoothing_plan();
        assert(working@ =~= bit_counts@);
    }
    let scale: u64 = gaussian_filter(
        working.as_mut_slice(),
        smoothed_bit_counts.as_mut_slice(),
        SMOOTHING_SIGMA,
        1,
        SMOOTHING_PASSES,
    );
    let steep = steepness(smoothed_bit_counts.as_slice());
    let gradient_peaks = find_cuts(&steep, scale);
    proof {
        assert(ints(bit_counts@).len() == size);
        assert(ints(smoothed_bit_counts@).len() == size);
        assert(wide_ints(steep@).len() == size);
    }
    collect_segments(&bit_counts, &gradient_peaks, offset1, offset2)
}

/// Returns the segments in which two fingerprints are alike.
///
/// A fingerprint of `0x7ffff` items or more is refused, the first one
/// before the second. Else the result holds the segments of the stretch
/// that the best peak of the histogram aligns, in ascending order, and is
/// empty where the histogram has no peak. The configuration has no part
/// in it.
pub fn match_fingerprints(fp1: &[u32], fp2: &[u32], _config: &Configuration) -> (result: Result<
    Vec<Segment>,
    MatchError,
>)
    ensures
        fp1@.len() + 1 >= OFFSET_LIMIT ==> result == Err::<Vec<Segment>, MatchError>(
            MatchError::FingerprintTooLong { index: 0 },
        ),
        fp1@.len() + 1 < OFFSET_LIMIT && fp2@.len() + 1 >= OFFSET_LIMIT ==> result == Err::<
            Vec<Segment>,
            MatchError,
        >(MatchError::FingerprintTooLong { index: 1 }),
        fp1@.len() + 1 < OFFSET_LIMIT && fp2@.len() + 1 < OFFSET_LIMIT ==> result is Ok
            && result->Ok_0@ == matched_segments(fp1@, fp2@) && forall|i: int|
            0 <= i < result->Ok_0@.len() ==> (#[trigger] result->Ok_0@[i]).wf(),
{
    if fp1.len() >= OFFSET_LIMIT - 1 {
        return Err(MatchError::FingerprintTooLong { index: 0 });
    }
    if fp2.len() >= OFFSET_LIMIT - 1 {
        return Err(MatchError::FingerprintTooLong { index: 1 });
    }
    let n1: usize = fp1.len();
    let n2: usize = fp2.len();
    let counts = alignment_histogram(fp1, fp2);
    proof {
        assert(counts@.map_values(|c: u32| c as int) =~= histogram(fp1@, fp2@));
    }
    match best_alignment(&counts) {
        None => Ok(Vec::new()),
        Some(peak) => {
            proof {
                lemma_best_peak(histogram(fp1@, fp2@), n1 + n2);
            }
            let offset1: usize = if peak > n2 {
                peak - n2
            } else {
                0
            };
            let offset2: usize = if peak < n2 {
                n2 - peak
            } else {
                0
            };
            let size: usize = if n1 - offset1 <= n2 - offset2 {
                n1 - offset1
            } else {
                n2 - offset2
            };
            Ok(score_stretch(fp1, fp2, offset1, offset2, size))
        },
    }
}

} // verus!
