use vstd::prelude::*;
use vstd::string::StringSliceAdditionalSpecFns;
use crate::levels::Level;
use crate::levels::MICRO_SCALE;
use crate::levels::NumberFormatError;
use crate::levels::decimal_micro;
use crate::levels::level_number;
use crate::levels::has_percent_suffix;
use crate::levels::magnitude_micro;
use crate::levels::parse_decimal_micro;
use crate::levels::wf_decimal;

verus! {

/// Byte-wise equality of two slices.
pub fn bytes_eq(a: &[u8], b: &[u8]) -> (r: bool)
    ensures
        r <==> a@ == b@,
{
    if a.len() != b.len() {
        proof {
            assert(a@.len() != b@.len());
        }
        return false;
    }
    let n = a.len();
    let mut i: usize = 0;
    while i < n
        invariant
            i <= n,
            n == a@.len() == b@.len(),
            forall|k: int| 0 <= k < i ==> a@[k] == b@[k],
        decreases n - i,
    {
        if a[i] != b[i] {
            return false;
        }
        i = i + 1;
    }
    proof {
        assert(a@ =~= b@);
    }
    true
}

/// Which operator compresses the HDR range into the displayable range.
#[derive(Clone, Copy, Debug, PartialEq, Eq, Structural)]
pub enum ToneMapKind {
    /// Identity: pass every sample through unchanged.
    Linear,
    /// Reinhard on perceptual luminance, rescaling chroma to match.
    Reinhard,
    /// Reinhard applied to each RGB channel independently.
    ReinhardRgb,
}

/// The operator a configuration name denotes, if any.
pub open spec fn spec_tone_map_of_name(s: Seq<u8>) -> Option<ToneMapKind> {
    if s == "linear".spec_bytes() {
        Some(ToneMapKind::Linear)
    } else if s == "reinhard".spec_bytes() {
        Some(ToneMapKind::Reinhard)
    } else if s == "reinhard-rgb".spec_bytes() {
        Some(ToneMapKind::ReinhardRgb)
    } else {
        None
    }
}

impl ToneMapKind {
    /// Reads the operator's configuration name.
    pub fn from_name(name: &str) -> (r: Option<ToneMapKind>)
        ensures
            r == spec_tone_map_of_name(name.spec_bytes()),
    {
        let b = name.as_bytes();
        if bytes_eq(b, "linear".as_bytes()) {
            Some(ToneMapKind::Linear)
        } else if bytes_eq(b, "reinhard".as_bytes()) {
            Some(ToneMapKind::Reinhard)
        } else if bytes_eq(b, "reinhard-rgb".as_bytes()) {
            Some(ToneMapKind::ReinhardRgb)
        } else {
            None
        }
    }
}

/// Which operator resolves colors whose channels leave the displayable
/// range.
#[derive(Clone, Copy, Debug, PartialEq, Eq, Structural)]
pub enum ColorMapKind {
    /// Clamp every channel into range independently.
    Clip,
    /// Search for a uniform darkening that brings the color into range.
    Darken,
    /// Search for a chroma scale that brings the color into range.
    Desaturate,
}

/// The operator a configuration name denotes, if any.
pub open spec fn spec_color_map_of_name(s: Seq<u8>) -> Option<ColorMapKind> {
    if s == "clip".spec_bytes() {
        Some(ColorMapKind::Clip)
    } else if s == "darken".spec_bytes() {
        Some(ColorMapKind::Darken)
    } else if s == "desaturate".spec_bytes() {
        Some(ColorMapKind::Desaturate)
    } else {
        None
    }
}

impl ColorMapKind {
    /// Reads the operator's configuration name.
    pub fn from_name(name: &str) -> (r: Option<ColorMapKind>)
        ensures
            r == spec_color_map_of_name(name.spec_bytes()),
    {
        let b = name.as_bytes();
        if bytes_eq(b, "clip".as_bytes()) {
            Some(ColorMapKind::Clip)
        } else if bytes_eq(b, "darken".as_bytes()) {
            Some(ColorMapKind::Darken)
        } else if bytes_eq(b, "desaturate".as_bytes()) {
            Some(ColorMapKind::Desaturate)
        } else {
            None
        }
    }
}

/// Supported source image containers.
#[derive(Clone, Copy, Debug, PartialEq, Eq, Structural)]
pub enum InputKind {
    Png,
    Jxr,
}

/// The source codec a file extension denotes, if any.
pub open spec fn spec_input_kind_of_extension(s: Seq<u8>) -> Option<InputKind> {
    if s == "png".spec_bytes() {
        Some(InputKind::Png)
    } else if s == "jxr".spec_bytes() {
        Some(InputKind::Jxr)
    } else {
        None
    }
}

impl InputKind {
    /// Decides the source codec from a file extension; any other
    /// extension is not a supported input.
    pub fn from_extension(ext: &str) -> (r: Option<InputKind>)
        ensures
            r == spec_input_kind_of_extension(ext.spec_bytes()),
    {
        let b = ext.as_bytes();
        if bytes_eq(b, "png".as_bytes()) {
            Some(InputKind::Png)
        } else if bytes_eq(b, "jxr".as_bytes()) {
            Some(InputKind::Jxr)
        } else {
            None
        }
    }
}

/// The error an unparseable number reports: a grammar mismatch is a
/// syntax error, an unrepresentable magnitude an overflow.
pub open spec fn spec_number_error(s: Seq<u8>) -> NumberFormatError {
    if !wf_decimal(s) {
        NumberFormatError::Syntax
    } else {
        NumberFormatError::Overflow
    }
}

/// The numeric text matches the grammar with a representable magnitude.
pub open spec fn parseable(s: Seq<u8>) -> bool {
    &&& wf_decimal(s)
    &&& magnitude_micro(s) <= i64::MAX
}

/// The level text's number part is parseable.
pub open spec fn level_parseable(s: Seq<u8>) -> bool {
    parseable(level_number(s))
}

/// The numeric text parses and the resulting micro-unit value is `v`.
pub open spec fn parses_to(s: Seq<u8>, v: i64) -> bool {
    &&& wf_decimal(s)
    &&& magnitude_micro(s) <= i64::MAX
    &&& v == decimal_micro(s)
}

/// The level text parses: a percentile if it carries the percent suffix,
/// an absolute scalar otherwise, with value `l`.
pub open spec fn parses_to_level(s: Seq<u8>, l: Level) -> bool {
    &&& wf_decimal(level_number(s))
    &&& magnitude_micro(level_number(s)) <= i64::MAX
    &&& l == if has_percent_suffix(s) {
        Level::Percentile(decimal_micro(level_number(s)) as i64)
    } else {
        Level::Scalar(decimal_micro(level_number(s)) as i64)
    }
}

/// Configuration of one whole conversion, immutable once built.  All
/// numeric values are in micro-units (`MICRO_SCALE` to one).
#[derive(Clone, Copy, Debug, PartialEq, Eq, Structural)]
pub struct Options {
    /// Exposure adjustment in stops, signed.
    pub exposure: i64,
    /// HDR reference level: nits, or a percentile of the input.
    pub hdr_max: Level,
    /// How aggressively tone mapping rescales chroma.
    pub saturation: i64,
    /// Selected tone-map operator.
    pub tone_map: ToneMapKind,
    /// Selected gamut-correction operator.
    pub color_map: ColorMapKind,
    /// Lower output level: absolute, or a percentile of the output.
    pub levels_min: Level,
    /// Upper output level: absolute, or a percentile of the output.
    pub levels_max: Level,
    /// Gamma power applied to luminance before the pipeline.
    pub pre_gamma: i64,
    /// Gamma power applied to luminance on output.
    pub post_gamma: i64,
}

impl Options {
    /// Parses the whole numeric configuration surface.  Succeeds exactly
    /// when every field parses; otherwise reports the first failure,
    /// reading the fields in declaration order.
    #[verifier::rlimit(100)]
    pub fn from_args(
        exposure: &str,
        hdr_max: &str,
        saturation: &str,
        tone_map: ToneMapKind,
        color_map: ColorMapKind,
        levels_min: &str,
        levels_max: &str,
        pre_gamma: &str,
        post_gamma: &str,
    ) -> (r: Result<Options, NumberFormatError>)
        ensures
            r is Ok ==> {
                let o = r->Ok_0;
                &&& parses_to(exposure.spec_bytes(), o.exposure)
                &&& parses_to_level(hdr_max.spec_bytes(), o.hdr_max)
                &&& parses_to(saturation.spec_bytes(), o.saturation)
                &&& o.tone_map == tone_map
                &&& o.color_map == color_map
                &&& parses_to_level(levels_min.spec_bytes(), o.levels_min)
                &&& parses_to_level(levels_max.spec_bytes(), o.levels_max)
                &&& parses_to(pre_gamma.spec_bytes(), o.pre_gamma)
                &&& parses_to(post_gamma.spec_bytes(), o.post_gamma)
            },
            r is Err ==> r->Err_0 == if !parseable(exposure.spec_bytes()) {
                spec_number_error(exposure.spec_bytes())
            } else if !level_parseable(hdr_max.spec_bytes()) {
                spec_number_error(level_number(hdr_max.spec_bytes()))
            } else if !parseable(saturation.spec_bytes()) {
                spec_number_error(saturation.spec_bytes())
            } else if !level_parseable(levels_min.spec_bytes()) {
                spec_number_error(level_number(levels_min.spec_bytes()))
            } else if !level_parseable(levels_max.spec_bytes()) {
                spec_number_error(level_number(levels_max.spec_bytes()))
            } else if !parseable(pre_gamma.spec_bytes()) {
                spec_number_error(pre_gamma.spec_bytes())
            } else {
                spec_number_error(post_gamma.spec_bytes())
            },
            r is Err ==> !(parseable(exposure.spec_bytes()) && level_parseable(
                hdr_max.spec_bytes(),
            ) && parseable(saturation.spec_bytes()) && level_parseable(levels_min.spec_bytes())
                && level_parseable(levels_max.spec_bytes()) && parseable(pre_gamma.spec_bytes())
                && parseable(post_gamma.spec_bytes())),
    {
        let exposure_v = match parse_decimal_micro(exposure.as_bytes()) {
            Ok(v) => v,
            Err(e) => {
                return Err(e);
            },
        };
        let hdr_max_v = match Level::with_str(hdr_max) {
            Ok(l) => l,
            Err(e) => {
                return Err(e);
            },
        };

        let saturation_v = match parse_decimal_micro(saturation.as_bytes()) {
            Ok(v) => v,
            Err(e) => {
                return Err(e);
            },
        };
        let levels_min_v = match Level::with_str(levels_min) {
            Ok(l) => l,
            Err(e) => {
                return Err(e);
            },
        };
        let levels_max_v = match Level::with_str(levels_max) {
            Ok(l) => l,
            Err(e) => {
                return Err(e);
            },
        };
        let pre_gamma_v = match parse_decimal_micro(pre_gamma.as_bytes()) {
            Ok(v) => v,
            Err(e) => {
                return Err(e);
            },
        };
        let post_gamma_v = match parse_decimal_micro(post_gamma.as_bytes()) {
            Ok(v) => v,
            Err(e) => {
                return Err(e);
            },
        };
        Ok(
            Options {
                exposure: exposure_v,
                hdr_max: hdr_max_v,
                saturation: saturation_v,
                tone_map,
                color_map,
                levels_min: levels_min_v,
                levels_max: levels_max_v,
                pre_gamma: pre_gamma_v,
                post_gamma: post_gamma_v,
            },
        )
    }

    /// Whether the pre-gamma stage does any work: a gamma of exactly one
    /// is the identity and the stage is skipped without allocating.
    pub fn pre_gamma_active(&self) -> (r: bool)
        ensures
            r <==> self.pre_gamma != MICRO_SCALE,
    {
        self.pre_gamma != MICRO_SCALE
    }
}

} // verus!
