use future_value::compounding::{select_frequency, Compounding};
use future_value::decimal::Decimal;

#[test]
fn periods_and_labels() {
    let all = [
        (Compounding::Annual, 1, "Annually"),
        (Compounding::Semiannually, 2, "Semi-annually"),
        (Compounding::Quarterly, 4, "Quarterly"),
        (Compounding::Monthly, 12, "Monthly"),
        (Compounding::Weekly, 52, "Weekly"),
        (Compounding::Daily, 365, "Daily"),
    ];
    for (c, n, label) in all {
        assert_eq!(c.periods_per_year(), Decimal::from_integer(n));
        assert_eq!(c.to_string(), label);
    }
    let custom = Compounding::Other(Decimal::new(false, 25, 1));
    assert_eq!(custom.periods_per_year(), Decimal::new(false, 25, 1));
    assert_eq!(custom.to_string(), "Custom");
}

#[test]
fn tokens_select_frequencies() {
    assert_eq!(Compounding::from_token("annual"), Some(Compounding::Annual));
    assert_eq!(Compounding::from_token("semiannual"), Some(Compounding::Semiannually));
    assert_eq!(Compounding::from_token("quarterly"), Some(Compounding::Quarterly));
    assert_eq!(Compounding::from_token("monthly"), Some(Compounding::Monthly));
    assert_eq!(Compounding::from_token("weekly"), Some(Compounding::Weekly));
    assert_eq!(Compounding::from_token("daily"), Some(Compounding::Daily));
    assert_eq!(Compounding::from_token("Annual"), None);
    assert_eq!(select_frequency(Compounding::Weekly, "hourly"), Compounding::Weekly);
    assert_eq!(select_frequency(Compounding::Weekly, "monthly"), Compounding::Monthly);
}

#[test]
fn custom_frequencies_compare_by_value() {
    let a = Compounding::Other(Decimal::new(false, 120, 1));
    let b = Compounding::Other(Decimal::from_integer(12));
    assert_eq!(a, b);
    assert_ne!(a, Compounding::Monthly);
}
