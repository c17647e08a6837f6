//! Acoustic fingerprints of audio, in the format of Chromaprint.
//!
//! A fingerprint is a sequence of 32-bit sub-fingerprints, one for about an
//! eighth of a second of audio. This crate holds the parts of making,
//! storing and comparing fingerprints that are integer arithmetic:
//!
//! - the front of the pipeline, which mixes the channels of PCM audio down
//!   to one ([`audio_processor`]), and the frames of the spectral analysis
//!   ([`fft`]);
//! - the layouts of the rings and images that the later stages work on
//!   ([`chroma`], [`chroma_filter`], [`rolling_image`], [`filter`]) and the
//!   assembly of sub-fingerprints ([`classifier`], [`fingerprint_calculator`]);
//! - the configurations of the algorithms ([`fingerprinter`]);
//! - the compressed form of a fingerprint ([`compression`], [`packing`],
//!   [`roundtrip`]) and fingerprints as text ([`output`]);
//! - the matching of two fingerprints ([`fingerprint_matcher`], [`offsets`],
//!   [`gaussian`], [`gradient`], [`symmetry`]);
//! - the cutting of a stream into chunks ([`chunks`]).
//!
//! Numbers with a fraction are held as integers: thresholds and
//! coefficients in units of 10^-8, smoothed curves as sums with their scale,
//! scores as differing bits and items.

pub mod audio_processor;
pub mod chroma;
pub mod chunks;
pub mod chroma_filter;
pub mod classifier;
pub mod compression;
pub mod fft;
pub mod filter;
pub mod fingerprint_calculator;
pub mod fingerprint_matcher;
pub mod fingerprinter;
pub mod gaussian;
pub mod gradient;
pub mod offsets;
pub mod output;
pub mod packing;
pub mod rolling_image;
pub mod roundtrip;
pub mod stages;
pub mod symmetry;
pub mod utils;

pub use audio_processor::ResetError;
pub use compression::FingerprintCompressor;
pub use fingerprint_matcher::{match_fingerprints, MatchError, Segment};
pub use fingerprinter::Configuration;
