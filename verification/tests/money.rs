use accounter::money::check_price_format;
use accounter::money::fixed_point_to_price;
use accounter::money::parse_price;
use accounter::money::price_to_fixed_point;

#[test]
fn validation_accepts_two_decimal_prices() {
    assert_eq!(parse_price("12.34"), Some(1234));
    assert_eq!(parse_price("0.05"), Some(5));
}

#[test]
fn validation_rejects_malformed_prices() {
    assert_eq!(parse_price("12.3"), None);
    assert_eq!(parse_price("12.345"), None);
    assert_eq!(parse_price("abc"), None);
    assert_eq!(parse_price("-1.00"), None);
    assert_eq!(parse_price(""), None);
    assert_eq!(parse_price("."), None);
    assert_eq!(parse_price(".05"), None);
    assert_eq!(parse_price("1."), None);
    assert_eq!(parse_price("1.5"), None);
}

#[test]
fn validation_requires_literal_point() {
    assert!(check_price_format("12.34"));
    assert!(!check_price_format("12x34"));
    assert!(!check_price_format("1234"));
}

#[test]
fn format_boundary() {
    assert_eq!(fixed_point_to_price(5), "0.05");
    assert_eq!(fixed_point_to_price(100), "1.00");
    assert_eq!(fixed_point_to_price(-50), "-0.50");
}

#[test]
fn format_more_values() {
    assert_eq!(fixed_point_to_price(0), "0.00");
    assert_eq!(fixed_point_to_price(1234), "12.34");
    assert_eq!(fixed_point_to_price(-5), "-0.05");
    assert_eq!(fixed_point_to_price(999999999), "9999999.99");
    assert_eq!(fixed_point_to_price(i32::MAX), "21474836.47");
}

#[test]
fn round_trip_format_then_parse() {
    for v in [0u32, 5, 99, 100, 101, 999, 1000, 1234, 999_999_999] {
        let s = fixed_point_to_price(v as i32);
        assert_eq!(parse_price(&s), Some(v));
    }
}

#[test]
fn round_trip_parse_then_format() {
    for s in ["0.00", "0.05", "1.00", "12.34", "9999999.99"] {
        let v = parse_price(s).unwrap();
        assert_eq!(fixed_point_to_price(v as i32), s);
    }
}

#[test]
fn parse_canonicalizes_leading_zeros() {
    assert_eq!(parse_price("007.00"), Some(700));
    assert_eq!(fixed_point_to_price(700), "7.00");
}

#[test]
fn parse_trims_whitespace() {
    assert_eq!(parse_price("  12.34 \n"), Some(1234));
    assert_eq!(parse_price("\t0.05\r\n"), Some(5));
    assert_eq!(parse_price("   "), None);
}

#[test]
fn parse_overflow_boundary() {
    assert_eq!(parse_price("42949672.95"), Some(u32::MAX));
    assert_eq!(parse_price("42949672.96"), None);
    assert_eq!(parse_price("99999999999999.99"), None);
}

#[test]
fn price_to_fixed_point_on_valid_input() {
    assert_eq!(price_to_fixed_point("12.34"), 1234);
    assert_eq!(price_to_fixed_point("0.05"), 5);
}
