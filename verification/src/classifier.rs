//! Classifiers and the sub-fingerprints that are put together from their
//! levels.
//!
//! A classifier is a filter and a quantizer. The filter gives a value for a
//! window of the image, the quantizer turns the value into one of four
//! levels, and the Gray code of the level gives two bits of the
//! sub-fingerprint. Sixteen classifiers fill its 32 bits.

use vstd::prelude::*;
use crate::filter::Filter;

verus! {

/// What a threshold of 1.0 is held as: thresholds and values are counted in
/// units of 10^-8.
pub const THRESHOLD_SCALE: i64 = 100_000_000;

/// Three thresholds that cut the values into four levels.
#[derive(Debug, Clone, Copy, PartialEq, Eq, Structural)]
pub struct Quantizer {
    t0: i64,
    t1: i64,
    t2: i64,
}

/// A filter with the quantizer for its values.
#[derive(Debug, Clone, Copy, PartialEq, Eq, Structural)]
pub struct Classifier {
    filter: Filter,
    quantizer: Quantizer,
}

/// The level of `value` for the thresholds `t0`, `t1` and `t2`: 0 below `t0`,
/// 1 from `t0` on, 2 from `t1` on, 3 from `t2` on.
pub open spec fn level(t0: int, t1: int, t2: int, value: int) -> u32 {
    if value < t1 {
        if value < t0 {
            0
        } else {
            1
        }
    } else {
        if value < t2 {
            2
        } else {
            3
        }
    }
}

/// The level of a value of which it is known whether it is below each of the
/// three thresholds.
pub open spec fn level_of(below_t0: bool, below_t1: bool, below_t2: bool) -> u32 {
    if below_t1 {
        if below_t0 {
            0
        } else {
            1
        }
    } else {
        if below_t2 {
            2
        } else {
            3
        }
    }
}

/// The Gray code of a quantizer level: `0, 1, 3, 2` for the levels `0..=3`.
pub open spec fn gray_code_spec(level: u32) -> u32
    recommends
        level < 4,
{
    if level == 0 {
        0
    } else if level == 1 {
        1
    } else if level == 2 {
        3
    } else {
        2
    }
}

/// The sub-fingerprint of the first `k` of `levels`: two bits for each, the
/// first level in the highest bits.
pub open spec fn assembled(levels: Seq<u32>, k: int) -> u32
    decreases k,
{
    if k <= 0 {
        0
    } else {
        (assembled(levels, k - 1) << 2) | gray_code_spec(levels[k - 1])
    }
}

impl Quantizer {
    /// The lowest threshold.
    pub closed spec fn spec_t0(&self) -> i64 {
        self.t0
    }

    /// The middle threshold.
    pub closed spec fn spec_t1(&self) -> i64 {
        self.t1
    }

    /// The highest threshold.
    pub closed spec fn spec_t2(&self) -> i64 {
        self.t2
    }

    /// The thresholds are in ascending order.
    pub open spec fn wf(&self) -> bool {
        self.spec_t0() <= self.spec_t1() <= self.spec_t2()
    }

    /// A quantizer with the thresholds `t0`, `t1` and `t2`, in units of
    /// 10^-8.
    pub fn new(t0: i64, t1: i64, t2: i64) -> (quantizer: Self)
        ensures
            quantizer.spec_t0() == t0,
            quantizer.spec_t1() == t1,
            quantizer.spec_t2() == t2,
    {
        Self { t0, t1, t2 }
    }

    /// The three thresholds, in ascending order of their names.
    pub fn thresholds(&self) -> (thresholds: (i64, i64, i64))
        ensures
            thresholds == (self.spec_t0(), self.spec_t1(), self.spec_t2()),
    {
        (self.t0, self.t1, self.t2)
    }

    /// The level of a value that is given in units of 10^-8.
    pub fn quantize(&self, val: i64) -> (q: u32)
        ensures
            q == level(self.spec_t0() as int, self.spec_t1() as int, self.spec_t2() as int, val as int),
            q < 4,
    {
        Self::level(val < self.t0, val < self.t1, val < self.t2)
    }

    /// The level of a value, from what its comparison with each of the three
    /// thresholds gave: whether it is below the lowest, below the middle and
    /// below the highest one.
    pub fn level(below_t0: bool, below_t1: bool, below_t2: bool) -> (q: u32)
        ensures
            q == level_of(below_t0, below_t1, below_t2),
            q < 4,
    {
        if below_t1 {
            if below_t0 {
                0
            } else {
                1
            }
        } else {
            if below_t2 {
                2
            } else {
                3
            }
        }
    }
}

/// The level of a value is the level that its comparisons with the
/// thresholds give.
pub proof fn lemma_level_of(t0: int, t1: int, t2: int, value: int)
    ensures
        level(t0, t1, t2, value) == level_of(value < t0, value < t1, value < t2),
{
}

/// A higher value never has a lower level.
pub proof fn lemma_level_monotonic(t0: int, t1: int, t2: int, v1: int, v2: int)
    requires
        v1 < v2,
    ensures
        level(t0, t1, t2, v1) <= level(t0, t1, t2, v2),
{
}

impl Classifier {
    /// The filter.
    pub closed spec fn spec_filter(&self) -> Filter {
        self.filter
    }

    /// The quantizer.
    pub closed spec fn spec_quantizer(&self) -> Quantizer {
        self.quantizer
    }

    /// A classifier of `filter` and `quantizer`.
    pub fn new(filter: Filter, quantizer: Quantizer) -> (classifier: Self)
        ensures
            classifier.spec_filter() == filter,
            classifier.spec_quantizer() == quantizer,
    {
        Self { filter, quantizer }
    }

    /// The filter of the classifier.
    pub fn filter(&self) -> (filter: &Filter)
        ensures
            *filter == self.spec_filter(),
    {
        &self.filter
    }

    /// The quantizer of the classifier.
    pub fn quantizer(&self) -> (quantizer: &Quantizer)
        ensures
            *quantizer == self.spec_quantizer(),
    {
        &self.quantizer
    }
}

/// Encodes a quantizer level so that neighbouring levels differ in one bit.
pub fn gray_code(i: u32) -> (code: u32)
    requires
        i < 4,
    ensures
        code == gray_code_spec(i),
        code < 4,
{
    if i == 0 {
        0
    } else if i == 1 {
        1
    } else if i == 2 {
        3
    } else {
        2
    }
}

/// Whether exactly one bit of `x` is set, among its two lowest.
pub open spec fn one_low_bit(x: u32) -> bool {
    x == 1 || x == 2
}

/// The Gray codes of two neighbouring levels differ in exactly one bit.
pub proof fn lemma_gray_neighbours(level: u32)
    requires
        level < 3,
    ensures
        one_low_bit(gray_code_spec(level) ^ gray_code_spec((level + 1) as u32)),
{
    assert(0u32 ^ 1u32 == 1u32) by (bit_vector);
    assert(1u32 ^ 3u32 == 2u32) by (bit_vector);
    assert(3u32 ^ 2u32 == 1u32) by (bit_vector);
}

/// Puts a sub-fingerprint together from the levels of the classifiers: the
/// Gray code of each level is shifted in from below, so that the first
/// classifier ends in the highest bits.
pub fn calculate_subfingerprint(levels: &[u32]) -> (bits: u32)
    requires
        forall|i: int| 0 <= i < levels@.len() ==> #[trigger] levels@[i] < 4,
    ensures
        bits == assembled(levels@, levels@.len() as int),
{
    let mut bits: u32 = 0;
    let mut k: usize = 0;
    while k < levels.len()
        invariant
            k <= levels@.len(),
            forall|i: int| 0 <= i < levels@.len() ==> #[trigger] levels@[i] < 4,
            bits == assembled(levels@, k as int),
        decreases levels@.len() - k,
    {
        bits = (bits << 2) | gray_code(levels[k]);
        k += 1;
    }
    bits
}

} // verus!
