use renban::errors::IntParseKind;
use renban::errors::RenbanError;
use renban::expand::create_renban;
use renban::expand::renban;
use renban::expand::renban1range;
use renban::expand::renban_with_fallback;

#[test]
fn create_renban_test() {
    assert_eq!(
        create_renban("3-5"),
        Ok(vec!["3".to_string(), "4".to_string(), "5".to_string()])
    );
    assert_eq!(create_renban("1-1"), Ok(vec!["1".to_string()]));
    assert_eq!(
        create_renban("01-03"),
        Ok(vec!["01".to_string(), "02".to_string(), "03".to_string()])
    );
    assert_eq!(
        create_renban("09-10"),
        Ok(vec!["09".to_string(), "10".to_string()])
    );
    assert_eq!(create_renban("001-001"), Ok(vec!["001".to_string()]));
    assert_eq!(create_renban("000-000"), Ok(vec!["000".to_string()]));
    assert_eq!(
        create_renban("100-101"),
        Ok(vec!["100".to_string(), "101".to_string()])
    );
    assert_eq!(create_renban("2-1"), Err(RenbanError::InvalidRange));
    assert!(matches!(
        create_renban("a-b"),
        Err(RenbanError::ParseError(_))
    ));
    assert_eq!(create_renban("a"), Err(RenbanError::InvalidArgs));
    assert_eq!(create_renban("3"), Err(RenbanError::InvalidArgs));
}

#[test]
fn renban1range_test() {
    assert_eq!(
        renban1range("http://example.com/img[1-2]s.jpg"),
        Ok(vec![
            "http://example.com/img1s.jpg".to_string(),
            "http://example.com/img2s.jpg".to_string()
        ])
    );
}

#[test]
fn renban_test() {
    assert_eq!(
        renban("http://example.com/img[1-2][3-4]s.jpg"),
        Ok(vec![
            "http://example.com/img13s.jpg".to_string(),
            "http://example.com/img14s.jpg".to_string(),
            "http://example.com/img23s.jpg".to_string(),
            "http://example.com/img24s.jpg".to_string()
        ])
    );
}

#[test]
fn expand_once_short_host() {
    assert_eq!(
        renban1range("http://x/img[1-2]s.jpg"),
        Ok(vec![
            "http://x/img1s.jpg".to_string(),
            "http://x/img2s.jpg".to_string()
        ])
    );
}

#[test]
fn expand_all_short_host_nested() {
    assert_eq!(
        renban("http://x/img[1-2][3-4]s.jpg"),
        Ok(vec![
            "http://x/img13s.jpg".to_string(),
            "http://x/img14s.jpg".to_string(),
            "http://x/img23s.jpg".to_string(),
            "http://x/img24s.jpg".to_string()
        ])
    );
}

#[test]
fn plain_input_reports_missing_bracket() {
    assert_eq!(renban("plain"), Err(RenbanError::InvalidArgs));
}

#[test]
fn plain_input_falls_back_to_identity() {
    assert_eq!(renban_with_fallback("plain"), vec!["plain".to_string()]);
}

#[test]
fn fallback_passes_successful_expansion_through() {
    assert_eq!(
        renban_with_fallback("a[1-2]b"),
        vec!["a1b".to_string(), "a2b".to_string()]
    );
}

#[test]
fn fallback_keeps_malformed_range_unchanged() {
    assert_eq!(
        renban_with_fallback("img[2-1].jpg"),
        vec!["img[2-1].jpg".to_string()]
    );
}

#[test]
fn padding_keeps_left_width_across_carry() {
    assert_eq!(
        create_renban("098-102"),
        Ok(vec![
            "098".to_string(),
            "099".to_string(),
            "100".to_string(),
            "101".to_string(),
            "102".to_string()
        ])
    );
}

#[test]
fn plus_signed_bounds_parse_unpadded() {
    assert_eq!(
        create_renban("+1-+3"),
        Ok(vec!["1".to_string(), "2".to_string(), "3".to_string()])
    );
}

#[test]
fn leading_hyphen_splits_first() {
    assert!(matches!(
        create_renban("-3--1"),
        Err(RenbanError::ParseError(IntParseKind::Empty))
    ));
}

#[test]
fn negative_right_bound_is_invalid_range() {
    assert_eq!(create_renban("1--5"), Err(RenbanError::InvalidRange));
}

#[test]
fn overflowing_bound_reports_parse_error() {
    assert_eq!(
        create_renban("99999999999-3"),
        Err(RenbanError::ParseError(IntParseKind::PosOverflow))
    );
}

#[test]
fn closing_bracket_before_opening_fails() {
    assert_eq!(renban1range("a]b[c"), Err(RenbanError::InvalidArgs));
}

#[test]
fn missing_closing_bracket_fails() {
    assert_eq!(renban1range("a[1-2"), Err(RenbanError::InvalidArgs));
}

#[test]
fn empty_brackets_fail() {
    assert_eq!(renban1range("a[]b"), Err(RenbanError::InvalidArgs));
}
