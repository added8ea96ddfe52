//! Core of an HDR-to-SDR screenshot converter.
//!
//! The pipeline decodes an HDR capture, adjusts exposure, tone-maps the
//! colors into displayable range, corrects out-of-gamut values, stretches
//! the output levels against a luminance histogram, and encodes the result
//! as 8-bit gamma-encoded pixels.  This crate holds the verified core of
//! that pipeline: the pixel-buffer bookkeeping, the configuration grammar,
//! the histogram and percentile machinery, the deferred histogram cache,
//! and the bracketing search used by the gamut correction.  The
//! floating-point color kernels and the codec and file plumbing live with
//! the caller.

pub mod deferred;
pub mod histogram;
pub mod levels;
pub mod options;
pub mod pixels;
pub mod search;

pub use deferred::Lazy;
pub use deferred::ResolvedLevel;
pub use histogram::Histogram;
pub use levels::Level;
pub use levels::NumberFormatError;
pub use options::ColorMapKind;
pub use options::InputKind;
pub use options::Options;
pub use options::ToneMapKind;
pub use pixels::PixelBuffer;
pub use pixels::PixelFormat;
pub use search::SearchOutcome;
