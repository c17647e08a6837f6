//! The algorithms that make fingerprints, and what configures them.
//!
//! An algorithm is told apart by its number, which a compressed fingerprint
//! carries in its header. The numbers 0 to 4 stand for the algorithms that
//! the presets give.

use vstd::prelude::*;
use crate::classifier::{Classifier, Quantizer};
use crate::filter::{Filter, FilterKind};

verus! {

/// The sample rate that audio is brought to before it is analysed.
pub const DEFAULT_SAMPLE_RATE: u32 = 11025;

/// The lowest frequency that the chroma features take in, in Hz.
pub const MIN_FREQ: u32 = 28;

/// The highest frequency that the chroma features take in, in Hz.
pub const MAX_FREQ: u32 = 3520;

/// Number of samples of a frame of the spectral analysis.
pub const DEFAULT_FRAME_SIZE: usize = 4096;

/// Number of samples that two frames that follow each other share.
pub const DEFAULT_FRAME_OVERLAP: usize = 2731;

/// Number of columns of the image: the chroma bands.
pub const NUM_BANDS: usize = 12;

/// The widest window that a filter may have.
pub const MAX_FILTER_WIDTH: usize = 256;

/// The longest filter over time that the ring of chroma vectors has room for.
pub const MAX_COEFFICIENTS: usize = 8;

/// What configures a fingerprinter.
#[derive(Debug, Clone)]
pub struct Configuration {
    id: u8,
    classifiers: Vec<Classifier>,
    remove_silence: bool,
    silence_threshold: u32,
    frame_size: usize,
    frame_overlap: usize,
    filter_coefficients: Vec<i64>,
    max_filter_width: usize,
    interpolate: bool,
}

/// Whether a classifier can be laid over an image of `NUM_BANDS` columns:
/// its window is not empty and lies within the columns, and its thresholds
/// are in ascending order.
pub open spec fn valid_classifier(classifier: Classifier) -> bool {
    let filter = classifier.spec_filter();
    &&& 1 <= filter.spec_width() <= MAX_FILTER_WIDTH
    &&& 1 <= filter.spec_height()
    &&& filter.spec_y() + filter.spec_height() <= NUM_BANDS
    &&& classifier.spec_quantizer().wf()
}

/// Whether `width` is the largest width of the filters of `classifiers`, or
/// zero where there are none.
pub open spec fn is_max_width(classifiers: Seq<Classifier>, width: int) -> bool {
    &&& forall|i: int|
        0 <= i < classifiers.len() ==> (#[trigger] classifiers[i]).spec_filter().spec_width()
            <= width
    &&& if classifiers.len() == 0 {
        width == 0
    } else {
        exists|i: int|
            0 <= i < classifiers.len() && (#[trigger] classifiers[i]).spec_filter().spec_width()
                == width
    }
}

/// The coefficients of the filter over time, `0.25, 0.75, 1.0, 0.75, 0.25`,
/// in units of 10^-8.
pub open spec fn chroma_filter_coefficients() -> Seq<i64> {
    seq![25_000_000i64, 75_000_000i64, 100_000_000i64, 75_000_000i64, 25_000_000i64]
}

/// What makes a classifier: the shape of its filter, the first column, the
/// height and the width of the filter's window, and the three thresholds of
/// its quantizer in units of 10^-8.
pub type ClassifierRow = (FilterKind, int, int, int, int, int, int);

/// What makes `classifier`.
pub open spec fn classifier_row(classifier: Classifier) -> ClassifierRow {
    (
        classifier.spec_filter().spec_kind(),
        classifier.spec_filter().spec_y() as int,
        classifier.spec_filter().spec_height() as int,
        classifier.spec_filter().spec_width() as int,
        classifier.spec_quantizer().spec_t0() as int,
        classifier.spec_quantizer().spec_t1() as int,
        classifier.spec_quantizer().spec_t2() as int,
    )
}

/// Whether `classifiers` are made as `rows` say.
pub open spec fn made_as(classifiers: Seq<Classifier>, rows: Seq<ClassifierRow>) -> bool {
    &&& classifiers.len() == rows.len()
    &&& forall|i: int| 0 <= i < rows.len() ==> classifier_row(#[trigger] classifiers[i]) == rows[i]
}

/// The classifiers of the first algorithm.
pub open spec fn classifier_rows_test1() -> Seq<ClassifierRow> {
    seq![
        (FilterKind::Filter0, 0int, 3int, 15int, 210543000int, 245354000int, 269414000int),
        (FilterKind::Filter1, 0int, 4int, 14int, -34592200int, 4637460int, 44625100int),
        (FilterKind::Filter1, 4int, 4int, 11int, -39213200int, 2910770int, 44339100int),
        (FilterKind::Filter3, 0int, 4int, 14int, -19285100int, 583535int, 20405300int),
        (FilterKind::Filter2, 8int, 2int, 4int, -7716190int, -991999int, 5754060int),
        (FilterKind::Filter5, 6int, 2int, 15int, -71043700int, -51895400int, -33040200int),
        (FilterKind::Filter1, 9int, 2int, 16int, -35372400int, -1897190int, 28976800int),
        (FilterKind::Filter3, 4int, 2int, 10int, -12841800int, -2856970int, 5917910int),
        (FilterKind::Filter3, 9int, 2int, 16int, -13905200int, -2284680int, 8797230int),
        (FilterKind::Filter2, 1int, 3int, 6int, -13356200int, 669205int, 15501200int),
        (FilterKind::Filter3, 3int, 6int, 2int, -2670000int, 804829int, 4597730int),
        (FilterKind::Filter2, 8int, 1int, 10int, -9724170int, 1522270int, 12900300int),
        (FilterKind::Filter3, 4int, 4int, 14int, -14143400int, 374515int, 14993500int),
        (FilterKind::Filter5, 4int, 2int, 15int, -64035000int, -46699900int, -28549300int),
        (FilterKind::Filter5, 9int, 2int, 3int, -32279200int, -25425800int, -17427800int),
        (FilterKind::Filter2, 1int, 8int, 4int, -7413750int, -590933int, 6003570int),
    ]
}

/// The classifiers of the second and of the third algorithm.
pub open spec fn classifier_rows_test2() -> Seq<ClassifierRow> {
    seq![
        (FilterKind::Filter0, 4int, 3int, 15int, 198215000int, 235817000int, 263523000int),
        (FilterKind::Filter4, 4int, 6int, 15int, -103809000int, -65121100int, -28216700int),
        (FilterKind::Filter1, 0int, 4int, 16int, -29870200int, 11926200int, 55849700int),
        (FilterKind::Filter3, 8int, 2int, 12int, -10543900int, 1539460int, 13589800int),
        (FilterKind::Filter3, 4int, 4int, 8int, -14289100int, 2587360int, 20063200int),
        (FilterKind::Filter4, 0int, 3int, 5int, -82631900int, -59061200int, -36821400int),
        (FilterKind::Filter1, 2int, 2int, 9int, -55740900int, -23303500int, 5345250int),
        (FilterKind::Filter2, 7int, 3int, 4int, -6468260int, 620476int, 7848470int),
        (FilterKind::Filter2, 6int, 2int, 16int, -19238700int, -2969900int, 21585500int),
        (FilterKind::Filter2, 1int, 3int, 2int, -3978180int, -568076int, 2920260int),
        (FilterKind::Filter5, 10int, 1int, 15int, -53823000int, -36993400int, -19023500int),
        (FilterKind::Filter3, 6int, 2int, 10int, -12487700int, 2964830int, 13923900int),
        (FilterKind::Filter2, 1int, 1int, 14int, -10147500int, 2256170int, 23197100int),
        (FilterKind::Filter3, 5int, 6int, 4int, -7999150int, -729616int, 6326200int),
        (FilterKind::Filter1, 9int, 2int, 12int, -27255600int, 1942400int, 30255900int),
        (FilterKind::Filter3, 4int, 2int, 14int, -16429200int, -3211880int, 8463390int),
    ]
}

/// The classifiers of the first algorithm.
fn classifiers_test1() -> (table: Vec<Classifier>)
    ensures
        table@.len() == 16,
        made_as(table@, classifier_rows_test1()),
        forall|i: int| 0 <= i < 16 ==> valid_classifier(#[trigger] table@[i]),
        forall|i: int| 0 <= i < 16 ==> (#[trigger] table@[i]).spec_filter().spec_width() <= 16,
        exists|i: int| 0 <= i < 16 && (#[trigger] table@[i]).spec_filter().spec_width() == 16,
{
    let mut table: Vec<Classifier> = Vec::with_capacity(16);
    table.push(
        Classifier::new(
            Filter::new(FilterKind::Filter0, 0, 3, 15),
            Quantizer::new(210543000, 245354000, 269414000),
        ),
    );
    table.push(
        Classifier::new(
            Filter::new(FilterKind::Filter1, 0, 4, 14),
            Quantizer::new(-34592200, 4637460, 44625100),
        ),
    );
    table.push(
        Classifier::new(
            Filter::new(FilterKind::Filter1, 4, 4, 11),
            Quantizer::new(-39213200, 2910770, 44339100),
        ),
    );
    table.push(
        Classifier::new(
            Filter::new(FilterKind::Filter3, 0, 4, 14),
            Quantizer::new(-19285100, 583535, 20405300),
        ),
    );
    table.push(
        Classifier::new(
            Filter::new(FilterKind::Filter2, 8, 2, 4),
            Quantizer::new(-7716190, -991999, 5754060),
        ),
    );
    table.push(
        Classifier::new(
            Filter::new(FilterKind::Filter5, 6, 2, 15),
            Quantizer::new(-71043700, -51895400, -33040200),
        ),
    );
    table.push(
        Classifier::new(
            Filter::new(FilterKind::Filter1, 9, 2, 16),
            Quantizer::new(-35372400, -1897190, 28976800),
        ),
    );
    table.push(
        Classifier::new(
            Filter::new(FilterKind::Filter3, 4, 2, 10),
            Quantizer::new(-12841800, -2856970, 5917910),
        ),
    );
    table.push(
        Classifier::new(
            Filter::new(FilterKind::Filter3, 9, 2, 16),
            Quantizer::new(-13905200, -2284680, 8797230),
        ),
    );
    table.push(
        Classifier::new(
            Filter::new(FilterKind::Filter2, 1, 3, 6),
            Quantizer::new(-13356200, 669205, 15501200),
        ),
    );
    table.push(
        Classifier::new(
            Filter::new(FilterKind::Filter3, 3, 6, 2),
            Quantizer::new(-2670000, 804829, 4597730),
        ),
    );
    table.push(
        Classifier::new(
            Filter::new(FilterKind::Filter2, 8, 1, 10),
            Quantizer::new(-9724170, 1522270, 12900300),
        ),
    );
    table.push(
        Classifier::new(
            Filter::new(FilterKind::Filter3, 4, 4, 14),
            Quantizer::new(-14143400, 374515, 14993500),
        ),
    );
    table.push(
        Classifier::new(
            Filter::new(FilterKind::Filter5, 4, 2, 15),
            Quantizer::new(-64035000, -46699900, -28549300),
        ),
    );
    table.push(
        Classifier::new(
            Filter::new(FilterKind::Filter5, 9, 2, 3),
            Quantizer::new(-32279200, -25425800, -17427800),
        ),
    );
    table.push(
        Classifier::new(
            Filter::new(FilterKind::Filter2, 1, 8, 4),
            Quantizer::new(-7413750, -590933, 6003570),
        ),
    );
    assert(table@[6].spec_filter().spec_width() == 16);
    table
}

/// The classifiers of the second and of the third algorithm.
fn classifiers_test2() -> (table: Vec<Classifier>)
    ensures
        table@.len() == 16,
        made_as(table@, classifier_rows_test2()),
        forall|i: int| 0 <= i < 16 ==> valid_classifier(#[trigger] table@[i]),
        forall|i: int| 0 <= i < 16 ==> (#[trigger] table@[i]).spec_filter().spec_width() <= 16,
        exists|i: int| 0 <= i < 16 && (#[trigger] table@[i]).spec_filter().spec_width() == 16,
{
    let mut table: Vec<Classifier> = Vec::with_capacity(16);
    table.push(
        Classifier::new(
            Filter::new(FilterKind::Filter0, 4, 3, 15),
            Quantizer::new(198215000, 235817000, 263523000),
        ),
    );
    table.push(
        Classifier::new(
            Filter::new(FilterKind::Filter4, 4, 6, 15),
            Quantizer::new(-103809000, -65121100, -28216700),
        ),
    );
    table.push(
        Classifier::new(
            Filter::new(FilterKind::Filter1, 0, 4, 16),
            Quantizer::new(-29870200, 11926200, 55849700),
        ),
    );
    table.push(
        Classifier::new(
            Filter::new(FilterKind::Filter3, 8, 2, 12),
            Quantizer::new(-10543900, 1539460, 13589800),
        ),
    );
    table.push(
        Classifier::new(
            Filter::new(FilterKind::Filter3, 4, 4, 8),
            Quantizer::new(-14289100, 2587360, 20063200),
        ),
    );
    table.push(
        Classifier::new(
            Filter::new(FilterKind::Filter4, 0, 3, 5),
            Quantizer::new(-82631900, -59061200, -36821400),
        ),
    );
    table.push(
        Classifier::new(
            Filter::new(FilterKind::Filter1, 2, 2, 9),
            Quantizer::new(-55740900, -23303500, 5345250),
        ),
    );
    table.push(
        Classifier::new(
            Filter::new(FilterKind::Filter2, 7, 3, 4),
            Quantizer::new(-6468260, 620476, 7848470),
        ),
    );
    table.push(
        Classifier::new(
            Filter::new(FilterKind::Filter2, 6, 2, 16),
            Quantizer::new(-19238700, -2969900, 21585500),
        ),
    );
    table.push(
        Classifier::new(
            Filter::new(FilterKind::Filter2, 1, 3, 2),
            Quantizer::new(-3978180, -568076, 2920260),
        ),
    );
    table.push(
        Classifier::new(
            Filter::new(FilterKind::Filter5, 10, 1, 15),
            Quantizer::new(-53823000, -36993400, -19023500),
        ),
    );
    table.push(
        Classifier::new(
            Filter::new(FilterKind::Filter3, 6, 2, 10),
            Quantizer::new(-12487700, 2964830, 13923900),
        ),
    );
    table.push(
        Classifier::new(
            Filter::new(FilterKind::Filter2, 1, 1, 14),
            Quantizer::new(-10147500, 2256170, 23197100),
        ),
    );
    table.push(
        Classifier::new(
            Filter::new(FilterKind::Filter3, 5, 6, 4),
            Quantizer::new(-7999150, -729616, 6326200),
        ),
    );
    table.push(
        Classifier::new(
            Filter::new(FilterKind::Filter1, 9, 2, 12),
            Quantizer::new(-27255600, 1942400, 30255900),
        ),
    );
    table.push(
        Classifier::new(
            Filter::new(FilterKind::Filter3, 4, 2, 14),
            Quantizer::new(-16429200, -3211880, 8463390),
        ),
    );
    assert(table@[2].spec_filter().spec_width() == 16);
    table
}

/// The coefficients of the filter over time.
fn coefficients() -> (values: Vec<i64>)
    ensures
        values@ == chroma_filter_coefficients(),
{
    let mut values: Vec<i64> = Vec::with_capacity(5);
    values.push(25_000_000);
    values.push(75_000_000);
    values.push(100_000_000);
    values.push(75_000_000);
    values.push(25_000_000);
    assert(values@ =~= chroma_filter_coefficients());
    values
}

impl Configuration {
    /// The number of the algorithm.
    pub closed spec fn spec_id(&self) -> u8 {
        self.id
    }

    /// The classifiers, in the order of their bits from the highest down.
    pub closed spec fn spec_classifiers(&self) -> Seq<Classifier> {
        self.classifiers@
    }

    /// Whether silence is left out.
    pub closed spec fn spec_remove_silence(&self) -> bool {
        self.remove_silence
    }

    /// The level up to which audio counts as silence.
    pub closed spec fn spec_silence_threshold(&self) -> u32 {
        self.silence_threshold
    }

    /// Number of samples of a frame.
    pub closed spec fn spec_frame_size(&self) -> usize {
        self.frame_size
    }

    /// Number of samples that two frames that follow each other share.
    pub closed spec fn spec_frame_overlap(&self) -> usize {
        self.frame_overlap
    }

    /// The coefficients of the filter over time, in units of 10^-8.
    pub closed spec fn spec_filter_coefficients(&self) -> Seq<i64> {
        self.filter_coefficients@
    }

    /// The largest width of the filters of the classifiers.
    pub closed spec fn spec_max_filter_width(&self) -> usize {
        self.max_filter_width
    }

    /// Whether the energy of a bin is shared between two neighbouring notes.
    pub closed spec fn spec_interpolate(&self) -> bool {
        self.interpolate
    }

    /// Whether a fingerprinter can be made from the configuration: frames
    /// overlap by less than their size, there are classifiers and all of
    /// them are valid, and the filter over time has an odd number of
    /// coefficients that the ring of chroma vectors has room for.
    pub open spec fn usable(&self) -> bool {
        &&& self.spec_frame_overlap() < self.spec_frame_size()
        &&& self.spec_classifiers().len() >= 1
        &&& forall|i: int|
            0 <= i < self.spec_classifiers().len() ==> valid_classifier(
                #[trigger] self.spec_classifiers()[i],
            )
        &&& is_max_width(self.spec_classifiers(), self.spec_max_filter_width() as int)
        &&& self.spec_filter_coefficients().len() % 2 == 1
        &&& self.spec_filter_coefficients().len() <= MAX_COEFFICIENTS
    }

    /// Whether the configuration is the preset of the algorithm number `id`.
    ///
    /// The first three algorithms have sixteen classifiers, the usual
    /// frames and the usual filter over time; the third shares the energy of
    /// a bin between neighbouring notes. Of the fourth only the removal of
    /// silence is set, of the fifth only the frames.
    pub open spec fn is_preset(&self, id: u8) -> bool {
        &&& id <= 4
        &&& self.spec_id() == id
        &&& if id <= 2 {
            &&& made_as(
                self.spec_classifiers(),
                if id == 0 {
                    classifier_rows_test1()
                } else {
                    classifier_rows_test2()
                },
            )
            &&& self.spec_max_filter_width() == 16
            &&& self.spec_filter_coefficients() == chroma_filter_coefficients()
            &&& self.spec_frame_size() == DEFAULT_FRAME_SIZE
            &&& self.spec_frame_overlap() == DEFAULT_FRAME_OVERLAP
        } else {
            &&& self.spec_classifiers() == Seq::<Classifier>::empty()
            &&& self.spec_max_filter_width() == 0
            &&& self.spec_filter_coefficients() == Seq::<i64>::empty()
            &&& self.spec_frame_size() == if id == 3 {
                0
            } else {
                DEFAULT_FRAME_SIZE as int / 2
            }
            &&& self.spec_frame_overlap() == if id == 3 {
                0
            } else {
                DEFAULT_FRAME_SIZE as int / 2 - DEFAULT_FRAME_SIZE as int / 4
            }
        }
        &&& self.spec_interpolate() == (id == 2)
        &&& self.spec_remove_silence() == (id == 3)
        &&& self.spec_silence_threshold() == if id == 3 {
            50u32
        } else {
            0u32
        }
    }

    /// A configuration for the algorithm number `id` with nothing set.
    fn new(id: u8) -> (config: Self)
        ensures
            config.spec_id() == id,
            config.spec_classifiers() == Seq::<Classifier>::empty(),
            !config.spec_remove_silence(),
            config.spec_silence_threshold() == 0,
            config.spec_frame_size() == 0,
            config.spec_frame_overlap() == 0,
            config.spec_filter_coefficients() == Seq::<i64>::empty(),
            config.spec_max_filter_width() == 0,
            !config.spec_interpolate(),
    {
        Self {
            id,
            classifiers: Vec::new(),
            remove_silence: false,
            silence_threshold: 0,
            frame_size: 0,
            frame_overlap: 0,
            filter_coefficients: Vec::new(),
            max_filter_width: 0,
            interpolate: false,
        }
    }

    /// What stays when one part of a configuration is set anew.
    pub open spec fn same_but(
        &self,
        other: &Configuration,
        classifiers: bool,
        coefficients: bool,
        interpolation: bool,
        frame_size: bool,
        frame_overlap: bool,
        silence: bool,
    ) -> bool {
        &&& self.spec_id() == other.spec_id()
        &&& classifiers || (self.spec_classifiers() == other.spec_classifiers()
            && self.spec_max_filter_width() == other.spec_max_filter_width())
        &&& coefficients || self.spec_filter_coefficients() == other.spec_filter_coefficients()
        &&& interpolation || self.spec_interpolate() == other.spec_interpolate()
        &&& frame_size || self.spec_frame_size() == other.spec_frame_size()
        &&& frame_overlap || self.spec_frame_overlap() == other.spec_frame_overlap()
        &&& silence || (self.spec_remove_silence() == other.spec_remove_silence()
            && self.spec_silence_threshold() == other.spec_silence_threshold())
    }

    /// Sets the classifiers, and with them the largest width of their
    /// filters.
    pub fn with_classifiers(self, classifiers: Vec<Classifier>) -> (config: Self)
        ensures
            config.spec_classifiers() == classifiers@,
            is_max_width(classifiers@, config.spec_max_filter_width() as int),
            config.same_but(&self, true, false, false, false, false, false),
    {
        let mut config = self;
        let mut widest: usize = 0;
        let mut i: usize = 0;
        while i < classifiers.len()
            invariant
                i <= classifiers@.len(),
                is_max_width(classifiers@.take(i as int), widest as int),
            decreases classifiers@.len() - i,
        {
            let width: usize = classifiers[i].filter().width();
            let ghost before = classifiers@.take(i as int);
            let ghost after = classifiers@.take(i + 1);
            proof {
                assert(after[i as int] == classifiers@[i as int]);
                assert forall|k: int| 0 <= k < i implies after[k] == before[k] by {}
                if before.len() > 0 && width <= widest {
                    let k = choose|k: int|
                        0 <= k < before.len() && (#[trigger] before[k]).spec_filter().spec_width()
                            == widest;
                    assert(after[k].spec_filter().spec_width() == widest);
                }
            }
            if width > widest {
                widest = width;
            }
            proof {
                assert forall|k: int| 0 <= k < after.len() implies (
                #[trigger] after[k]).spec_filter().spec_width() <= widest by {
                    if k < i {
                        assert(after[k] == before[k]);
                    }
                }
            }
            i += 1;
        }
        assert(classifiers@.take(classifiers@.len() as int) =~= classifiers@);
        config.max_filter_width = widest;
        config.classifiers = classifiers;
        config
    }

    /// Sets the coefficients of the filter over time, in units of 10^-8.
    pub fn with_coefficients(self, coefficients: Vec<i64>) -> (config: Self)
        ensures
            config.spec_filter_coefficients() == coefficients@,
            config.same_but(&self, false, true, false, false, false, false),
    {
        let mut config = self;
        config.filter_coefficients = coefficients;
        config
    }

    /// Turns the sharing of energy between neighbouring notes on or off.
    pub fn with_interpolation(self, interpolate: bool) -> (config: Self)
        ensures
            config.spec_interpolate() == interpolate,
            config.same_but(&self, false, false, true, false, false, false),
    {
        let mut config = self;
        config.interpolate = interpolate;
        config
    }

    /// Sets the number of samples of a frame.
    pub fn with_frame_size(self, frame_size: usize) -> (config: Self)
        ensures
            config.spec_frame_size() == frame_size,
            config.same_but(&self, false, false, false, true, false, false),
    {
        let mut config = self;
        config.frame_size = frame_size;
        config
    }

    /// Sets the number of samples that two frames that follow each other
    /// share.
    pub fn with_frame_overlap(self, frame_overlap: usize) -> (config: Self)
        ensures
            config.spec_frame_overlap() == frame_overlap,
            config.same_but(&self, false, false, false, false, true, false),
    {
        let mut config = self;
        config.frame_overlap = frame_overlap;
        config
    }

    /// Has silence left out: audio up to the level `silence_threshold`.
    pub fn with_removed_silence(self, silence_threshold: u32) -> (config: Self)
        ensures
            config.spec_remove_silence(),
            config.spec_silence_threshold() == silence_threshold,
            config.same_but(&self, false, false, false, false, false, true),
    {
        let mut config = self;
        config.remove_silence = true;
        config.silence_threshold = silence_threshold;
        config
    }

    /// The number of the algorithm, which a compressed fingerprint carries.
    pub fn id(&self) -> (id: u8)
        ensures
            id == self.spec_id(),
    {
        self.id
    }

    /// The classifiers.
    pub fn classifiers(&self) -> (classifiers: &Vec<Classifier>)
        ensures
            classifiers@ == self.spec_classifiers(),
    {
        &self.classifiers
    }

    /// The coefficients of the filter over time, in units of 10^-8.
    pub fn filter_coefficients(&self) -> (coefficients: &Vec<i64>)
        ensures
            coefficients@ == self.spec_filter_coefficients(),
    {
        &self.filter_coefficients
    }

    /// Whether the energy of a bin is shared between two neighbouring notes.
    pub fn interpolate(&self) -> (interpolate: bool)
        ensures
            interpolate == self.spec_interpolate(),
    {
        self.interpolate
    }

    /// Number of samples of a frame.
    pub fn frame_size(&self) -> (frame_size: usize)
        ensures
            frame_size == self.spec_frame_size(),
    {
        self.frame_size
    }

    /// Number of samples that two frames that follow each other share.
    pub fn frame_overlap(&self) -> (frame_overlap: usize)
        ensures
            frame_overlap == self.spec_frame_overlap(),
    {
        self.frame_overlap
    }

    /// The largest width of the filters of the classifiers.
    pub fn max_filter_width(&self) -> (width: usize)
        ensures
            width == self.spec_max_filter_width(),
    {
        self.max_filter_width
    }

    /// Whether silence is left out, and up to which level audio counts as
    /// silence.
    pub fn removed_silence(&self) -> (silence: Option<u32>)
        ensures
            silence == if self.spec_remove_silence() {
                Some(self.spec_silence_threshold())
            } else {
                None
            },
    {
        if self.remove_silence {
            Some(self.silence_threshold)
        } else {
            None
        }
    }

    /// The sample rate that audio is brought to before it is analysed.
    pub fn sample_rate(&self) -> (rate: u32)
        ensures
            rate == DEFAULT_SAMPLE_RATE,
    {
        DEFAULT_SAMPLE_RATE
    }

    /// Number of samples from one item of the fingerprint to the next. An
    /// item lasts this number over the sample rate, in seconds.
    pub fn samples_in_item(&self) -> (samples: usize)
        requires
            self.spec_frame_overlap() <= self.spec_frame_size(),
        ensures
            samples == self.spec_frame_size() - self.spec_frame_overlap(),
    {
        self.frame_size - self.frame_overlap
    }

    /// Number of samples that a fingerprinter holds back: what the filter
    /// over time and the widest filter wait for, and the overlap of the
    /// frames.
    pub fn delay(&self) -> (samples: usize)
        requires
            self.spec_frame_overlap() <= self.spec_frame_size(),
            self.spec_filter_coefficients().len() >= 1,
            self.spec_max_filter_width() >= 1,
            self.spec_filter_coefficients().len() + self.spec_max_filter_width() <= usize::MAX,
            (self.spec_filter_coefficients().len() + self.spec_max_filter_width() - 2) * (
            self.spec_frame_size() - self.spec_frame_overlap()) + self.spec_frame_overlap()
                <= usize::MAX,
        ensures
            samples == (self.spec_filter_coefficients().len() + self.spec_max_filter_width() - 2)
                * (self.spec_frame_size() - self.spec_frame_overlap())
                + self.spec_frame_overlap(),
    {
        let items: usize = (self.filter_coefficients.len() - 1) + (self.max_filter_width - 1);
        let hop: usize = self.frame_size - self.frame_overlap;
        proof {
            assert(items * hop <= usize::MAX) by (nonlinear_arith)
                requires
                    items * hop + self.frame_overlap <= usize::MAX,
                    self.frame_overlap >= 0,
            ;
        }
        items * hop + self.frame_overlap
    }

    /// Tells whether a fingerprinter can be made from the configuration.
    pub fn is_usable(&self) -> (usable: bool)
        ensures
            usable ==> self.usable(),
            usable <==> {
                &&& self.spec_frame_overlap() < self.spec_frame_size()
                &&& self.spec_classifiers().len() >= 1
                &&& forall|i: int|
                    0 <= i < self.spec_classifiers().len() ==> valid_classifier(
                        #[trigger] self.spec_classifiers()[i],
                    )
                &&& self.spec_max_filter_width() >= 1
                &&& forall|i: int|
                    0 <= i < self.spec_classifiers().len() ==> (
                    #[trigger] self.spec_classifiers()[i]).spec_filter().spec_width()
                        <= self.spec_max_filter_width()
                &&& exists|i: int|
                    0 <= i < self.spec_classifiers().len() && (
                    #[trigger] self.spec_classifiers()[i]).spec_filter().spec_width()
                        == self.spec_max_filter_width()
                &&& self.spec_filter_coefficients().len() % 2 == 1
                &&& self.spec_filter_coefficients().len() <= MAX_COEFFICIENTS
            },
    {
        if self.frame_overlap >= self.frame_size {
            return false;
        }
        if self.classifiers.len() == 0 {
            return false;
        }
        let count: usize = self.filter_coefficients.len();
        if count % 2 != 1 || count > MAX_COEFFICIENTS {
            return false;
        }
        let mut found: bool = false;
        let mut i: usize = 0;
        while i < self.classifiers.len()
            invariant
                i <= self.classifiers@.len(),
                forall|k: int| 0 <= k < i ==> valid_classifier(#[trigger] self.classifiers@[k]),
                forall|k: int|
                    0 <= k < i ==> (#[trigger] self.classifiers@[k]).spec_filter().spec_width()
                        <= self.max_filter_width,
                found <==> exists|k: int|
                    0 <= k < i && (#[trigger] self.classifiers@[k]).spec_filter().spec_width()
                        == self.max_filter_width,
            decreases self.classifiers@.len() - i,
        {
            let classifier: &Classifier = &self.classifiers[i];
            let filter: &Filter = classifier.filter();
            let (t0, t1, t2) = classifier.quantizer().thresholds();
            let width: usize = filter.width();
            let height: usize = filter.height();
            let y: usize = filter.y();
            let valid: bool = 1 <= width && width <= MAX_FILTER_WIDTH && 1 <= height && y
                <= NUM_BANDS && height <= NUM_BANDS - y && t0 <= t1 && t1 <= t2;
            if !valid || width > self.max_filter_width {
                return false;
            }
            if width == self.max_filter_width {
                found = true;
            }
            i += 1;
        }
        found
    }

    /// The first algorithm.
    pub fn preset_test1() -> (config: Self)
        ensures
            config.is_preset(0),
            config.usable(),
    {
        let table = classifiers_test1();
        let ghost widest = choose|i: int|
            0 <= i < 16 && (#[trigger] table@[i]).spec_filter().spec_width() == 16;
        let config = Self::new(0).with_classifiers(table);
        proof {
            let classifiers = config.spec_classifiers();
            let width = config.spec_max_filter_width();
            assert(classifiers[widest].spec_filter().spec_width() <= width);
            let k = choose|k: int|
                0 <= k < classifiers.len() && (#[trigger] classifiers[k]).spec_filter().spec_width()
                    == width;
            assert(classifiers[k].spec_filter().spec_width() <= 16);
        }
        config.with_coefficients(coefficients()).with_interpolation(false).with_frame_size(
            DEFAULT_FRAME_SIZE,
        ).with_frame_overlap(DEFAULT_FRAME_OVERLAP)
    }

    /// The second algorithm, which is the usual one.
    pub fn preset_test2() -> (config: Self)
        ensures
            config.is_preset(1),
            config.usable(),
    {
        let table = classifiers_test2();
        let ghost widest = choose|i: int|
            0 <= i < 16 && (#[trigger] table@[i]).spec_filter().spec_width() == 16;
        let config = Self::new(1).with_classifiers(table);
        proof {
            let classifiers = config.spec_classifiers();
            let width = config.spec_max_filter_width();
            assert(classifiers[widest].spec_filter().spec_width() <= width);
            let k = choose|k: int|
                0 <= k < classifiers.len() && (#[trigger] classifiers[k]).spec_filter().spec_width()
                    == width;
            assert(classifiers[k].spec_filter().spec_width() <= 16);
        }
        config.with_coefficients(coefficients()).with_interpolation(false).with_frame_size(
            DEFAULT_FRAME_SIZE,
        ).with_frame_overlap(DEFAULT_FRAME_OVERLAP)
    }

    /// The third algorithm: the second with the energy of a bin shared
    /// between neighbouring notes.
    pub fn preset_test3() -> (config: Self)
        ensures
            config.is_preset(2),
            config.usable(),
    {
        let table = classifiers_test2();
        let ghost widest = choose|i: int|
            0 <= i < 16 && (#[trigger] table@[i]).spec_filter().spec_width() == 16;
        let config = Self::new(2).with_classifiers(table);
        proof {
            let classifiers = config.spec_classifiers();
            let width = config.spec_max_filter_width();
            assert(classifiers[widest].spec_filter().spec_width() <= width);
            let k = choose|k: int|
                0 <= k < classifiers.len() && (#[trigger] classifiers[k]).spec_filter().spec_width()
                    == width;
            assert(classifiers[k].spec_filter().spec_width() <= 16);
        }
        config.with_coefficients(coefficients()).with_interpolation(true).with_frame_size(
            DEFAULT_FRAME_SIZE,
        ).with_frame_overlap(DEFAULT_FRAME_OVERLAP)
    }

    /// The fourth algorithm, of which only the removal of silence up to the
    /// level 50 is set.
    pub fn preset_test4() -> (config: Self)
        ensures
            config.is_preset(3),
            !config.usable(),
    {
        Self::new(3).with_removed_silence(50)
    }

    /// The fifth algorithm, of which only the frames are set: half as long
    /// as usual, and overlapping by half.
    pub fn preset_test5() -> (config: Self)
        ensures
            config.is_preset(4),
            !config.usable(),
    {
        Self::new(4).with_frame_size(DEFAULT_FRAME_SIZE / 2).with_frame_overlap(
            DEFAULT_FRAME_SIZE / 2 - DEFAULT_FRAME_SIZE / 4,
        )
    }
}

impl Configuration {
    /// The preset of the algorithm number `id`, for the numbers from 0 to 4.
    pub fn preset(id: u8) -> (config: Option<Self>)
        ensures
            config is Some <==> id <= 4,
            config is Some ==> config->0.is_preset(id),
            config is Some ==> (config->0.usable() <==> id <= 2),
    {
        if id == 0 {
            Some(Self::preset_test1())
        } else if id == 1 {
            Some(Self::preset_test2())
        } else if id == 2 {
            Some(Self::preset_test3())
        } else if id == 3 {
            Some(Self::preset_test4())
        } else if id == 4 {
            Some(Self::preset_test5())
        } else {
            None
        }
    }
}

impl Default for Configuration {
    /// The usual algorithm, the second.
    fn default() -> (config: Self)
        ensures
            config.is_preset(1),
            config.usable(),
    {
        Self::preset_test2()
    }
}

} // verus!
