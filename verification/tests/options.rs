use hdrfix::levels::Level;
use hdrfix::levels::NumberFormatError;
use hdrfix::options::ColorMapKind;
use hdrfix::options::InputKind;
use hdrfix::options::Options;
use hdrfix::options::ToneMapKind;

#[test]
fn tone_map_names_resolve() {
    assert_eq!(ToneMapKind::from_name("linear"), Some(ToneMapKind::Linear));
    assert_eq!(ToneMapKind::from_name("reinhard"), Some(ToneMapKind::Reinhard));
    assert_eq!(
        ToneMapKind::from_name("reinhard-rgb"),
        Some(ToneMapKind::ReinhardRgb)
    );
    assert_eq!(ToneMapKind::from_name("reinhardrgb"), None);
    assert_eq!(ToneMapKind::from_name(""), None);
}

#[test]
fn color_map_names_resolve() {
    assert_eq!(ColorMapKind::from_name("clip"), Some(ColorMapKind::Clip));
    assert_eq!(ColorMapKind::from_name("darken"), Some(ColorMapKind::Darken));
    assert_eq!(
        ColorMapKind::from_name("desaturate"),
        Some(ColorMapKind::Desaturate)
    );
    assert_eq!(ColorMapKind::from_name("saturate"), None);
}

#[test]
fn input_kinds_resolve_from_extension() {
    assert_eq!(InputKind::from_extension("png"), Some(InputKind::Png));
    assert_eq!(InputKind::from_extension("jxr"), Some(InputKind::Jxr));
    assert_eq!(InputKind::from_extension("jpg"), None);
    assert_eq!(InputKind::from_extension("PNG"), None);
}

#[test]
fn default_configuration_parses() {
    let o = Options::from_args(
        "0",
        "100%",
        "1",
        ToneMapKind::Reinhard,
        ColorMapKind::Desaturate,
        "0.0",
        "1.0",
        "1.0",
        "1.0",
    )
    .unwrap();
    assert_eq!(o.exposure, 0);
    assert_eq!(o.hdr_max, Level::Percentile(100_000_000));
    assert_eq!(o.saturation, 1_000_000);
    assert_eq!(o.tone_map, ToneMapKind::Reinhard);
    assert_eq!(o.color_map, ColorMapKind::Desaturate);
    assert_eq!(o.levels_min, Level::Scalar(0));
    assert_eq!(o.levels_max, Level::Scalar(1_000_000));
    assert_eq!(o.pre_gamma, 1_000_000);
    assert_eq!(o.post_gamma, 1_000_000);
    assert!(!o.pre_gamma_active());
}

#[test]
fn pre_gamma_other_than_one_activates_the_stage() {
    let o = Options::from_args(
        "-1.5",
        "400",
        "0.8",
        ToneMapKind::Linear,
        ColorMapKind::Clip,
        "5%",
        "95%",
        "1.2",
        "0.9",
    )
    .unwrap();
    assert_eq!(o.exposure, -1_500_000);
    assert_eq!(o.hdr_max, Level::Scalar(400_000_000));
    assert_eq!(o.levels_min, Level::Percentile(5_000_000));
    assert_eq!(o.levels_max, Level::Percentile(95_000_000));
    assert_eq!(o.pre_gamma, 1_200_000);
    assert!(o.pre_gamma_active());
}

#[test]
fn first_bad_field_reports_its_error() {
    let r = Options::from_args(
        "zero",
        "oops",
        "1",
        ToneMapKind::Linear,
        ColorMapKind::Clip,
        "0",
        "1",
        "1",
        "1",
    );
    assert_eq!(r, Err(NumberFormatError::Syntax));
}

#[test]
fn overflowing_field_reports_overflow() {
    let r = Options::from_args(
        "0",
        "100%",
        "123456789123456789123",
        ToneMapKind::Linear,
        ColorMapKind::Clip,
        "0",
        "1",
        "1",
        "1",
    );
    assert_eq!(r, Err(NumberFormatError::Overflow));
}
