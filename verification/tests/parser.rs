use noise_histogram::errors::NoiseError;
use noise_histogram::range_parser::parse_range;

#[test]
fn parses_simple_decimal_range() {
    let r = parse_range(b"1.5-3").unwrap();
    assert_eq!(r.0.m, 1_500_000);
    assert_eq!(r.1.m, 3_000_000);
}

#[test]
fn rejects_plain_text() {
    assert_eq!(parse_range(b"abc"), Err(NoiseError::RangeParse));
}

#[test]
fn accepts_reversed_bounds() {
    let r = parse_range(b"2-1").unwrap();
    assert_eq!(r.0.m, 2_000_000);
    assert_eq!(r.1.m, 1_000_000);
}

#[test]
fn accepts_fraction_without_integer_part() {
    let r = parse_range(b".5-1").unwrap();
    assert_eq!(r.0.m, 500_000);
    assert_eq!(r.1.m, 1_000_000);
}

#[test]
fn rejects_empty_sides_as_number_format() {
    assert_eq!(parse_range(b"-"), Err(NoiseError::NumberFormat));
    assert_eq!(parse_range(b"1-"), Err(NoiseError::NumberFormat));
    assert_eq!(parse_range(b"-2"), Err(NoiseError::NumberFormat));
}

#[test]
fn rejects_empty_string() {
    assert_eq!(parse_range(b""), Err(NoiseError::RangeParse));
}

#[test]
fn rejects_two_dashes() {
    assert_eq!(parse_range(b"1-2-3"), Err(NoiseError::RangeParse));
}

#[test]
fn rejects_double_dot() {
    assert_eq!(parse_range(b"1..2-3"), Err(NoiseError::RangeParse));
}

#[test]
fn rejects_trailing_dot() {
    assert_eq!(parse_range(b"1.-2"), Err(NoiseError::RangeParse));
}

#[test]
fn truncates_fraction_beyond_six_digits() {
    let r = parse_range(b"0.0000009-1").unwrap();
    assert_eq!(r.0.m, 0);
    let r = parse_range(b"0.1234567-1").unwrap();
    assert_eq!(r.0.m, 123_456);
}

#[test]
fn rejects_unrepresentable_magnitude() {
    assert_eq!(
        parse_range(b"99999999999999999999-1"),
        Err(NoiseError::NumberFormat)
    );
}

#[test]
fn parses_two_fractions() {
    let r = parse_range(b"1.25-2.75").unwrap();
    assert_eq!(r.0.m, 1_250_000);
    assert_eq!(r.1.m, 2_750_000);
}
