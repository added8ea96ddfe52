use hdrfix::levels::Level;
use hdrfix::levels::NumberFormatError;
use hdrfix::levels::parse_decimal_micro;

#[test]
fn percent_suffix_parses_as_percentile() {
    let r = Level::with_str("50%").unwrap();
    assert_eq!(r, Level::Percentile(50_000_000));
}

#[test]
fn plain_number_parses_as_scalar() {
    let r = Level::with_str("0.25").unwrap();
    assert_eq!(r, Level::Scalar(250_000));
}

#[test]
fn integer_scalar() {
    assert_eq!(Level::with_str("100").unwrap(), Level::Scalar(100_000_000));
}

#[test]
fn negative_scalar() {
    assert_eq!(Level::with_str("-2").unwrap(), Level::Scalar(-2_000_000));
}

#[test]
fn explicit_plus_percentile() {
    assert_eq!(Level::with_str("+3%").unwrap(), Level::Percentile(3_000_000));
}

#[test]
fn trailing_dot_is_accepted() {
    assert_eq!(Level::with_str("1.").unwrap(), Level::Scalar(1_000_000));
}

#[test]
fn leading_dot_is_accepted() {
    assert_eq!(Level::with_str(".5").unwrap(), Level::Scalar(500_000));
}

#[test]
fn fraction_digits_beyond_resolution_are_dropped() {
    assert_eq!(Level::with_str("0.1234567").unwrap(), Level::Scalar(123_456));
}

#[test]
fn empty_text_is_a_syntax_error() {
    assert_eq!(Level::with_str(""), Err(NumberFormatError::Syntax));
}

#[test]
fn bare_percent_is_a_syntax_error() {
    assert_eq!(Level::with_str("%"), Err(NumberFormatError::Syntax));
}

#[test]
fn two_dots_are_a_syntax_error() {
    assert_eq!(Level::with_str("1.2.3"), Err(NumberFormatError::Syntax));
}

#[test]
fn letters_are_a_syntax_error() {
    assert_eq!(Level::with_str("abc"), Err(NumberFormatError::Syntax));
    assert_eq!(Level::with_str("1e3"), Err(NumberFormatError::Syntax));
}

#[test]
fn lone_sign_is_a_syntax_error() {
    assert_eq!(Level::with_str("-"), Err(NumberFormatError::Syntax));
    assert_eq!(Level::with_str("+."), Err(NumberFormatError::Syntax));
}

#[test]
fn huge_magnitude_is_an_overflow_error() {
    assert_eq!(
        Level::with_str("99999999999999999999"),
        Err(NumberFormatError::Overflow)
    );
}

#[test]
fn largest_representable_magnitude_parses() {
    // i64::MAX micro-units is 9223372036854.775807 whole units
    let r = parse_decimal_micro(b"9223372036854.775807").unwrap();
    assert_eq!(r, i64::MAX);
    assert_eq!(
        parse_decimal_micro(b"9223372036854.775808"),
        Err(NumberFormatError::Overflow)
    );
}

#[test]
fn parse_decimal_micro_zero_forms() {
    assert_eq!(parse_decimal_micro(b"0").unwrap(), 0);
    assert_eq!(parse_decimal_micro(b"0.0").unwrap(), 0);
    assert_eq!(parse_decimal_micro(b"-0").unwrap(), 0);
}
