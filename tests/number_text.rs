use future_value::decimal::Decimal;
use future_value::number_text::{parse_number, ParsedNumber};

fn exact(negative: bool, coefficient: u128, scale: u32) -> ParsedNumber {
    ParsedNumber::Exact(Decimal::new(negative, coefficient, scale))
}

#[test]
fn parses_plain_numbers() {
    assert_eq!(parse_number("12"), exact(false, 12, 0));
    assert_eq!(parse_number("-0.5"), exact(true, 5, 1));
    assert_eq!(parse_number("+7"), exact(false, 7, 0));
    assert_eq!(parse_number(".5"), exact(false, 5, 1));
    assert_eq!(parse_number("5."), exact(false, 5, 0));
    assert_eq!(parse_number("1000.00"), exact(false, 1000, 0));
    assert_eq!(parse_number("007.250"), exact(false, 725, 2));
}

#[test]
fn parses_exponents() {
    assert_eq!(parse_number("1.5e3"), exact(false, 1500, 0));
    assert_eq!(parse_number("25E-3"), exact(false, 25, 3));
    assert_eq!(parse_number("1e+2"), exact(false, 100, 0));
    assert_eq!(parse_number("0e999999999999999999999999"), exact(false, 0, 0));
    assert_eq!(parse_number("-0"), exact(false, 0, 0));
}

#[test]
fn parses_special_words() {
    assert_eq!(parse_number("inf"), ParsedNumber::Infinite { negative: false });
    assert_eq!(parse_number("-Infinity"), ParsedNumber::Infinite { negative: true });
    assert_eq!(parse_number("NaN"), ParsedNumber::NotANumber);
}

#[test]
fn rejects_malformed_text() {
    for t in ["", "abc", ".", "+", "1e", "e5", "12a", "1.2.3", "1 000", "1,000", "--1", "infinit"] {
        assert_eq!(parse_number(t), ParsedNumber::Malformed, "{}", t);
    }
}

#[test]
fn numbers_a_decimal_cannot_hold() {
    assert_eq!(parse_number("1e400"), ParsedNumber::Inexact { negative: false });
    assert_eq!(parse_number("-1e39"), ParsedNumber::Inexact { negative: true });
    assert_eq!(parse_number("1e-39"), ParsedNumber::Inexact { negative: false });
    assert_eq!(parse_number("1e38"), exact(false, 10u128.pow(38), 0));
    assert_eq!(parse_number("1e-38"), exact(false, 1, 38));
    assert_eq!(parse_number("1000000000000000000000000000000000000000000000000e-30"), exact(false, 10u128.pow(18), 0));
    assert_eq!(parse_number("1.000000000000000000000000000000000000000000000000"), exact(false, 1, 0));
}

#[test]
fn percent_becomes_fraction() {
    assert_eq!(Decimal::new(false, 3875, 3).percent_as_fraction(), Some(Decimal::new(false, 3875, 5)));
    assert_eq!(Decimal::from_integer(50).percent_as_fraction(), Some(Decimal::new(false, 5, 1)));
    assert_eq!(Decimal::new(false, 1, 37).percent_as_fraction(), None);
}
