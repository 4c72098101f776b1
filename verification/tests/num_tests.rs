use renban::errors::IntParseKind;
use renban::num::format_i32;
use renban::num::format_padded;
use renban::num::parse_i32;

#[test]
fn parse_simple_values() {
    assert_eq!(parse_i32("0"), Ok(0));
    assert_eq!(parse_i32("42"), Ok(42));
    assert_eq!(parse_i32("007"), Ok(7));
    assert_eq!(parse_i32("+9"), Ok(9));
    assert_eq!(parse_i32("-9"), Ok(-9));
}

#[test]
fn parse_extreme_values() {
    assert_eq!(parse_i32("2147483647"), Ok(i32::MAX));
    assert_eq!(parse_i32("-2147483648"), Ok(i32::MIN));
    assert_eq!(parse_i32("2147483648"), Err(IntParseKind::PosOverflow));
    assert_eq!(parse_i32("-2147483649"), Err(IntParseKind::NegOverflow));
}

#[test]
fn parse_malformed_literals() {
    assert_eq!(parse_i32(""), Err(IntParseKind::Empty));
    assert_eq!(parse_i32("+"), Err(IntParseKind::InvalidDigit));
    assert_eq!(parse_i32("-"), Err(IntParseKind::InvalidDigit));
    assert_eq!(parse_i32("1a"), Err(IntParseKind::InvalidDigit));
    assert_eq!(parse_i32("--1"), Err(IntParseKind::InvalidDigit));
    assert_eq!(parse_i32(" 1"), Err(IntParseKind::InvalidDigit));
}

#[test]
fn format_minimal_decimal() {
    assert_eq!(format_i32(0), "0".to_string());
    assert_eq!(format_i32(12034), "12034".to_string());
    assert_eq!(format_i32(-5), "-5".to_string());
    assert_eq!(format_i32(i32::MAX), "2147483647".to_string());
    assert_eq!(format_i32(i32::MIN), "-2147483648".to_string());
}

#[test]
fn format_padded_widths() {
    assert_eq!(format_padded(7, 3), "007".to_string());
    assert_eq!(format_padded(123, 3), "123".to_string());
    assert_eq!(format_padded(1234, 3), "1234".to_string());
    assert_eq!(format_padded(0, 1), "0".to_string());
}
