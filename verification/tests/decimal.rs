use runstats::decimal::{parse_decimal, parse_u8_text};

#[test]
fn decimal_degrees_to_nanodegrees() {
    assert_eq!(parse_decimal("55.755826", 9), Some(55_755_826_000));
    assert_eq!(parse_decimal("10.1025420", 9), Some(10_102_542_000));
    assert_eq!(parse_decimal("-0.5", 9), Some(-500_000_000));
    assert_eq!(parse_decimal("+180", 9), Some(180_000_000_000));
}

#[test]
fn decimal_metres_to_millimetres() {
    assert_eq!(parse_decimal("478.2", 3), Some(478_200));
    assert_eq!(parse_decimal("0", 3), Some(0));
    assert_eq!(parse_decimal("-12.3456", 3), Some(-12_345));
}

#[test]
fn decimal_partial_forms() {
    assert_eq!(parse_decimal("1.", 3), Some(1_000));
    assert_eq!(parse_decimal(".5", 3), Some(500));
}

#[test]
fn decimal_rejects_non_numbers() {
    assert_eq!(parse_decimal("abc", 9), None);
    assert_eq!(parse_decimal("", 9), None);
    assert_eq!(parse_decimal(".", 9), None);
    assert_eq!(parse_decimal("1.2.3", 9), None);
    assert_eq!(parse_decimal("1e3", 9), None);
    assert_eq!(parse_decimal(" 1", 9), None);
}

#[test]
fn decimal_rejects_overflowing_magnitudes() {
    assert_eq!(parse_decimal("99999999999999999999", 9), None);
}

#[test]
fn byte_text_within_range() {
    assert_eq!(parse_u8_text("95"), Some(95));
    assert_eq!(parse_u8_text("0"), Some(0));
    assert_eq!(parse_u8_text("255"), Some(255));
    assert_eq!(parse_u8_text("+7"), Some(7));
}

#[test]
fn byte_text_out_of_range_or_malformed() {
    assert_eq!(parse_u8_text("256"), None);
    assert_eq!(parse_u8_text("300"), None);
    assert_eq!(parse_u8_text(""), None);
    assert_eq!(parse_u8_text("-1"), None);
    assert_eq!(parse_u8_text("9 "), None);
}
