//! The last stage of the pipeline: from rows of features to
//! sub-fingerprints.
//!
//! Every vector of features becomes a row of the rolling integral image. As
//! soon as the image has as many rows as the widest filter needs, every new
//! row gives one sub-fingerprint: the classifiers are laid over the window
//! of the last rows, and their levels are put together.
//!
//! This module keeps the layout of the image and the fingerprint, and says
//! what is to be done with each row; the sums over the image are taken by
//! whoever holds its cells.

use vstd::prelude::*;
use crate::classifier::{assembled, calculate_subfingerprint, Classifier};
use crate::fingerprinter::{is_max_width, MAX_FILTER_WIDTH};
use crate::rolling_image::{RollingIntegralImage, RowSlot};
use crate::stages::Stage;

verus! {

/// Number of rows that the image keeps besides the newest.
pub const IMAGE_ROWS: usize = 255;

/// Collects the sub-fingerprints of a stream of feature vectors.
pub struct FingerprintCalculator {
    classifiers: Vec<Classifier>,
    max_filter_width: usize,
    image: RollingIntegralImage,
    fingerprint: Vec<u32>,
}

impl FingerprintCalculator {
    /// The classifiers.
    pub closed spec fn spec_classifiers(&self) -> Seq<Classifier> {
        self.classifiers@
    }

    /// The width of the widest filter.
    pub closed spec fn spec_max_filter_width(&self) -> usize {
        self.max_filter_width
    }

    /// The layout of the image.
    pub closed spec fn spec_image(&self) -> RollingIntegralImage {
        self.image
    }

    /// The sub-fingerprints so far.
    pub closed spec fn spec_fingerprint(&self) -> Seq<u32> {
        self.fingerprint@
    }

    /// The image is sound and keeps enough rows for the widest filter.
    pub open spec fn wf(&self) -> bool {
        &&& self.spec_image().wf()
        &&& self.spec_image().slots() == IMAGE_ROWS + 1
        &&& 1 <= self.spec_max_filter_width() <= MAX_FILTER_WIDTH
        &&& is_max_width(self.spec_classifiers(), self.spec_max_filter_width() as int)
    }

    /// A calculator for `classifiers`, of which there must be one at least.
    /// The widest of their filters must be 1 to 256 rows wide.
    pub fn new(classifiers: Vec<Classifier>) -> (calculator: Self)
        requires
            classifiers@.len() >= 1,
            forall|i: int|
                0 <= i < classifiers@.len() ==> (
                #[trigger] classifiers@[i]).spec_filter().spec_width() <= MAX_FILTER_WIDTH,
            exists|i: int|
                0 <= i < classifiers@.len() && (
                #[trigger] classifiers@[i]).spec_filter().spec_width() >= 1,
        ensures
            calculator.wf(),
            calculator.spec_classifiers() == classifiers@,
            calculator.spec_fingerprint() == Seq::<u32>::empty(),
            calculator.spec_image().spec_rows() == 0,
            calculator.spec_image().spec_columns() == 0,
    {
        let mut widest: usize = classifiers[0].filter().width();
        let ghost mut at: int = 0;
        let mut i: usize = 1;
        while i < classifiers.len()
            invariant
                1 <= i <= classifiers@.len(),
                0 <= at < i,
                classifiers@[at].spec_filter().spec_width() == widest,
                forall|k: int|
                    0 <= k < i ==> (#[trigger] classifiers@[k]).spec_filter().spec_width()
                        <= widest,
            decreases classifiers@.len() - i,
        {
            let width: usize = classifiers[i].filter().width();
            if width > widest {
                widest = width;
                proof {
                    at = i as int;
                }
            }
            i += 1;
        }
        proof {
            let k = choose|k: int|
                0 <= k < classifiers@.len() && (
                #[trigger] classifiers@[k]).spec_filter().spec_width() >= 1;
            assert(classifiers@[k].spec_filter().spec_width() <= widest);
        }
        Self {
            max_filter_width: widest,
            classifiers,
            image: RollingIntegralImage::new(IMAGE_ROWS),
            fingerprint: Vec::new(),
        }
    }

    /// The classifiers, in the order of their bits from the highest down.
    pub fn classifiers(&self) -> (classifiers: &Vec<Classifier>)
        ensures
            classifiers@ == self.spec_classifiers(),
    {
        &self.classifiers
    }

    /// The layout of the image.
    pub fn image(&self) -> (image: &RollingIntegralImage)
        ensures
            *image == self.spec_image(),
    {
        &self.image
    }

    /// The sub-fingerprints so far.
    pub fn fingerprint(&self) -> (fingerprint: &[u32])
        ensures
            fingerprint@ == self.spec_fingerprint(),
    {
        self.fingerprint.as_slice()
    }

    /// Adds a row of `len` features to the image and tells where it is to be
    /// written.
    pub fn add_row(&mut self, len: usize) -> (slot: RowSlot)
        requires
            old(self).wf(),
            old(self).spec_image().can_add(len as int),
        ensures
            final(self).wf(),
            final(self).spec_classifiers() == old(self).spec_classifiers(),
            final(self).spec_max_filter_width() == old(self).spec_max_filter_width(),
            final(self).spec_fingerprint() == old(self).spec_fingerprint(),
            final(self).spec_image().spec_columns() == len,
            final(self).spec_image().spec_rows() == old(self).spec_image().spec_rows() + 1,
            slot.start == final(self).spec_image().cell(old(self).spec_image().spec_rows(), 0),
            slot.start + len <= (IMAGE_ROWS + 1) * len,
            slot.previous == if old(self).spec_image().spec_rows() > 0 {
                Some(
                    final(self).spec_image().cell(old(self).spec_image().spec_rows() - 1, 0) as usize,
                )
            } else {
                None
            },
            slot.previous is Some ==> slot.previous->0 + len <= (IMAGE_ROWS + 1) * len,
    {
        self.image.add_row(len)
    }

    /// The first row of the window that the classifiers are to be laid
    /// over, once the image has as many rows as the widest filter needs:
    /// the window ends with the newest row.
    pub fn window(&self) -> (offset: Option<usize>)
        ensures
            offset == if self.spec_image().spec_rows() >= self.spec_max_filter_width() {
                Some((self.spec_image().spec_rows() - self.spec_max_filter_width()) as usize)
            } else {
                None
            },
    {
        if self.image.rows() >= self.max_filter_width {
            Some(self.image.rows() - self.max_filter_width)
        } else {
            None
        }
    }

    /// Appends the sub-fingerprint of the levels that the classifiers gave,
    /// in their order.
    pub fn push_levels(&mut self, levels: &[u32])
        requires
            forall|i: int| 0 <= i < levels@.len() ==> #[trigger] levels@[i] < 4,
        ensures
            final(self).spec_fingerprint() == old(self).spec_fingerprint().push(
                assembled(levels@, levels@.len() as int),
            ),
            final(self).spec_classifiers() == old(self).spec_classifiers(),
            final(self).spec_max_filter_width() == old(self).spec_max_filter_width(),
            final(self).spec_image() == old(self).spec_image(),
    {
        self.fingerprint.push(calculate_subfingerprint(levels));
    }

    /// Forgets the sub-fingerprints so far.
    pub fn clear_fingerprint(&mut self)
        ensures
            final(self).spec_fingerprint() == Seq::<u32>::empty(),
            final(self).spec_classifiers() == old(self).spec_classifiers(),
            final(self).spec_max_filter_width() == old(self).spec_max_filter_width(),
            final(self).spec_image() == old(self).spec_image(),
    {
        self.fingerprint.clear()
    }

    /// Begins anew: forgets the rows of the image and the sub-fingerprints.
    pub fn reset(&mut self)
        requires
            old(self).wf(),
        ensures
            final(self).wf(),
            final(self).spec_fingerprint() == Seq::<u32>::empty(),
            final(self).spec_image().spec_rows() == 0,
            final(self).spec_image().spec_columns() == 0,
            final(self).spec_classifiers() == old(self).spec_classifiers(),
            final(self).spec_max_filter_width() == old(self).spec_max_filter_width(),
    {
        self.image.reset();
        self.fingerprint.clear();
    }
}

impl Stage for FingerprintCalculator {
    type Output = [u32];

    /// The sub-fingerprints so far.
    fn output(&self) -> (out: &Self::Output)
        ensures
            out@ == self.spec_fingerprint(),
    {
        self.fingerprint.as_slice()
    }
}

} // verus!
