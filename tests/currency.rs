use future_value::currency::format_currency;
use future_value::formula::truncate_to_two_decimal_places;
use future_value::decimal::Decimal;

#[test]
fn formats_dollars_and_cents() {
    assert_eq!(format_currency(Decimal::new(false, 130789, 2)), "1,307.89");
    assert_eq!(format_currency(Decimal::new(false, 999995, 3)), "1,000.00");
    assert_eq!(format_currency(Decimal::new(false, 99999, 2)), "999.99");
    assert_eq!(format_currency(Decimal::from_integer(1234567)), "1,234,567.00");
    assert_eq!(format_currency(Decimal::from_integer(0)), "0.00");
    assert_eq!(format_currency(Decimal::new(false, 5, 1)), "0.50");
    assert_eq!(format_currency(Decimal::new(false, 1000001, 2)), "10,000.01");
}

#[test]
fn formats_negative_amounts() {
    assert_eq!(format_currency(Decimal::new(true, 525, 2)), "-5.25");
    assert_eq!(format_currency(Decimal::new(true, 25, 2)), "-0.25");
    assert_eq!(format_currency(Decimal::new(true, 4, 3)), "0.00");
}

#[test]
fn formats_the_cents_that_rounding_produced() {
    for x in [Decimal::new(false, 999995, 3), Decimal::new(true, 1234567, 5), Decimal::new(false, 130789, 2)] {
        assert_eq!(format_currency(truncate_to_two_decimal_places(x)), format_currency(x));
    }
}
