use homebank_converter::amount::{parse_to_number, Decimal};

fn value(d: Decimal) -> f64 {
    d.mantissa as f64 / 10f64.powi(d.scale as i32)
}

#[test]
fn test_parse_to_number() {
    assert_eq!(value(parse_to_number("1.1").unwrap()), 11.0);
    assert_eq!(value(parse_to_number("1,1").unwrap()), 1.1);
}

#[test]
fn parses_signed_amounts_with_grouping() {
    assert_eq!(parse_to_number("-15,39"), Some(Decimal { mantissa: -1539, scale: 2 }));
    assert_eq!(parse_to_number("+5"), Some(Decimal { mantissa: 5, scale: 0 }));
    assert_eq!(parse_to_number("-1.234,50"), Some(Decimal { mantissa: -123450, scale: 2 }));
    assert_eq!(parse_to_number("0.0"), Some(Decimal { mantissa: 0, scale: 0 }));
    assert_eq!(parse_to_number(",5"), Some(Decimal { mantissa: 5, scale: 1 }));
}

#[test]
fn rejects_malformed_amounts() {
    assert_eq!(parse_to_number(""), None);
    assert_eq!(parse_to_number("-"), None);
    assert_eq!(parse_to_number("1,2,3"), None);
    assert_eq!(parse_to_number("12a"), None);
    assert_eq!(parse_to_number(".,"), None);
}

#[test]
fn amount_limits() {
    assert_eq!(
        parse_to_number("9223372036854775807"),
        Some(Decimal { mantissa: i64::MAX, scale: 0 })
    );
    assert_eq!(parse_to_number("9223372036854775808"), None);
    assert_eq!(parse_to_number("-9.223.372.036.854.775.807"), Some(Decimal { mantissa: -i64::MAX, scale: 0 }));
}

#[test]
fn positivity_is_strict() {
    assert!(Decimal { mantissa: 1, scale: 3 }.is_positive());
    assert!(!Decimal { mantissa: 0, scale: 0 }.is_positive());
    assert!(!Decimal { mantissa: -1, scale: 0 }.is_positive());
}
