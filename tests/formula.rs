use future_value::compounding::Compounding;
use future_value::decimal::Decimal;
use future_value::formula::{compute_fv, compute_pv, truncate_to_two_decimal_places, FormulaError};

fn dec(negative: bool, coefficient: u128, scale: u32) -> Decimal {
    Decimal::new(negative, coefficient, scale)
}

fn whole(n: u128) -> Decimal {
    Decimal::from_integer(n)
}

#[test]
fn truncate_rounds_half_away_from_zero() {
    assert_eq!(truncate_to_two_decimal_places(dec(false, 999995, 3)), whole(1000));
    assert_eq!(truncate_to_two_decimal_places(dec(false, 1234, 3)), dec(false, 123, 2));
    assert_eq!(truncate_to_two_decimal_places(dec(false, 1235, 3)), dec(false, 124, 2));
    assert_eq!(truncate_to_two_decimal_places(dec(true, 1235, 3)), dec(true, 124, 2));
    assert_eq!(truncate_to_two_decimal_places(dec(false, 4, 3)), whole(0));
    assert_eq!(truncate_to_two_decimal_places(dec(true, 4, 3)), whole(0));
}

#[test]
fn truncate_keeps_whole_cents() {
    assert_eq!(truncate_to_two_decimal_places(whole(5)), whole(5));
    assert_eq!(truncate_to_two_decimal_places(dec(false, 130789, 2)), dec(false, 130789, 2));
    assert_eq!(truncate_to_two_decimal_places(whole(u128::MAX)), whole(u128::MAX));
}

#[test]
fn truncate_twice_is_truncate_once() {
    for x in [dec(false, 999995, 3), dec(true, 123456789, 7), dec(false, 1, 38), whole(42)] {
        let once = truncate_to_two_decimal_places(x);
        assert_eq!(truncate_to_two_decimal_places(once), once);
    }
}

#[test]
fn future_value_end_to_end() {
    // 1000 * 1.03875^7 = 1304.9000793..., which rounds to 1304.90.
    let fv = compute_fv(whole(1000), dec(false, 3875, 5), Compounding::Annual.periods_per_year(), whole(7));
    assert_eq!(fv, Ok(dec(false, 130490, 2)));
    assert_eq!(fv, Ok(dec(false, 13049, 1)));
}

#[test]
fn future_value_monthly() {
    // 10000 * (1 + 0.05/12)^60 = 12833.5867...
    let fv = compute_fv(whole(10000), dec(false, 5, 2), whole(12), whole(5));
    assert_eq!(fv, Ok(dec(false, 1283359, 2)));
}

#[test]
fn future_value_over_zero_years_is_rounded_principal() {
    let p = dec(false, 1234567, 4);
    for rate in [dec(false, 5, 2), dec(true, 3, 1), whole(0)] {
        let fv = compute_fv(p, rate, whole(12), whole(0));
        assert_eq!(fv, Ok(truncate_to_two_decimal_places(p)));
        assert_eq!(fv, Ok(dec(false, 12346, 2)));
    }
}

#[test]
fn future_value_at_zero_rate_is_rounded_principal() {
    let p = dec(false, 100005, 3);
    for years in [whole(7), dec(false, 25, 1), dec(true, 3, 0)] {
        let fv = compute_fv(p, whole(0), whole(4), years);
        assert_eq!(fv, Ok(truncate_to_two_decimal_places(p)));
    }
}

#[test]
fn present_value_round_trip() {
    let p = whole(1000);
    let rate = dec(false, 3875, 5);
    let fv = compute_fv(p, rate, whole(1), whole(7)).unwrap();
    let pv = compute_pv(fv, rate, whole(1), whole(7)).unwrap();
    assert_eq!(pv, whole(1000));
    let p = dec(false, 123456, 2);
    let fv = compute_fv(p, dec(false, 7, 2), whole(365), whole(3)).unwrap();
    let pv = compute_pv(fv, dec(false, 7, 2), whole(365), whole(3)).unwrap();
    let diff = (pv.coefficient as i128 * 100 / 10i128.pow(pv.scale)) - 123456;
    assert!(diff.abs() <= 1);
}

#[test]
fn present_value_monthly() {
    // 100000 / (1 + 0.05/12)^120 = 60716.0988...
    let pv = compute_pv(whole(100000), dec(false, 5, 2), whole(12), whole(10));
    assert_eq!(pv, Ok(dec(false, 607161, 1)));
}

#[test]
fn negative_years_discount() {
    // 1000 * 1.1^-1 = 909.0909...
    let fv = compute_fv(whole(1000), dec(false, 1, 1), whole(1), dec(true, 1, 0));
    assert_eq!(fv, Ok(dec(false, 90909, 2)));
}

#[test]
fn negative_rates() {
    let fv = compute_fv(whole(1000), dec(true, 5, 1), whole(1), whole(2));
    assert_eq!(fv, Ok(whole(250)));
    // A growth factor of -2 over one period.
    let fv = compute_fv(whole(1000), dec(true, 3, 0), whole(1), whole(1));
    assert_eq!(fv, Ok(dec(true, 2000, 0)));
}

#[test]
fn fractional_years_with_whole_periods() {
    // 2.5 years compounded monthly is 30 periods.
    let fv = compute_fv(whole(1000), dec(false, 12, 2), whole(12), dec(false, 25, 1));
    // 1000 * 1.01^30 = 1347.8489...
    assert_eq!(fv, Ok(dec(false, 134785, 2)));
}

#[test]
fn non_positive_periods_are_rejected() {
    let zero = Compounding::Other(whole(0)).periods_per_year();
    assert_eq!(compute_fv(whole(1), whole(0), zero, whole(1)), Err(FormulaError::NonPositivePeriods));
    assert_eq!(
        compute_pv(whole(1), whole(0), dec(true, 4, 0), whole(1)),
        Err(FormulaError::NonPositivePeriods)
    );
}

#[test]
fn fractional_periods_use_a_root() {
    // 1000 * 1.05^5.5 = 1307.7994...
    assert_eq!(
        compute_fv(whole(1000), dec(false, 5, 2), whole(1), dec(false, 55, 1)),
        Ok(dec(false, 13078, 1))
    );
    // 10000 * 1.04^0.5 = 10198.0390...
    assert_eq!(
        compute_fv(whole(10000), dec(false, 4, 2), whole(1), dec(false, 5, 1)),
        Ok(dec(false, 1019804, 2))
    );
    // 1000 * (1 + 0.05/12)^1.2 = 1005.0020...
    assert_eq!(compute_fv(whole(1000), dec(false, 5, 2), whole(12), dec(false, 1, 1)), Ok(dec(false, 1005, 0)));
    // 1307.80 / 1.05^5.5 = 1000.0005...
    assert_eq!(
        compute_pv(dec(false, 13078, 1), dec(false, 5, 2), whole(1), dec(false, 55, 1)),
        Ok(whole(1000))
    );
}

#[test]
fn fractional_powers_of_unusable_factors() {
    // 1 + (-3)/1 = -2 has no half power.
    assert_eq!(
        compute_fv(whole(1000), dec(true, 3, 0), whole(1), dec(false, 5, 1)),
        Err(FormulaError::NegativeGrowthFactor)
    );
    // 1 + (-1)/1 = 0: its half power is zero, and cannot be divided by.
    assert_eq!(compute_fv(whole(1000), dec(true, 1, 0), whole(1), dec(false, 5, 1)), Ok(whole(0)));
    assert_eq!(
        compute_pv(whole(1000), dec(true, 1, 0), whole(1), dec(false, 5, 1)),
        Err(FormulaError::ZeroGrowthFactor)
    );
}

#[test]
fn too_fine_fractions_are_rejected() {
    assert_eq!(
        compute_fv(whole(1000), dec(false, 5, 2), whole(1), dec(false, 1, 7)),
        Err(FormulaError::TooFinePeriods)
    );
    // A ten-thousandth of a period is accepted: 1000 * 1.05^1.0001 = 1050.0051...
    assert_eq!(
        compute_fv(whole(1000), dec(false, 5, 2), whole(1), dec(false, 10001, 4)),
        Ok(dec(false, 105001, 2))
    );
}

#[test]
fn too_many_periods_are_rejected() {
    assert_eq!(
        compute_fv(whole(1000), dec(false, 5, 2), whole(365), whole(3000)),
        Err(FormulaError::TooManyPeriods)
    );
    assert_eq!(
        compute_fv(whole(1000), dec(false, 5, 2), whole(1), whole(100000)),
        Err(FormulaError::OutOfRange)
    );
}

#[test]
fn many_daily_periods() {
    // 1000 * (1 + 0.05/365)^365000, exactly rounded to cents.
    assert_eq!(
        compute_fv(whole(1000), dec(false, 5, 2), whole(365), whole(1000)),
        Ok(dec(false, 516698167272344669768125969, 2))
    );
}

#[test]
fn zero_rate_or_zero_years_ignore_the_period_limits() {
    let p = dec(false, 1234567, 4);
    let rounded = Ok(dec(false, 12346, 2));
    assert_eq!(compute_fv(p, whole(0), whole(1), whole(100001)), rounded);
    assert_eq!(compute_fv(p, whole(0), whole(1), dec(false, 10001, 4)), rounded);
    assert_eq!(compute_fv(p, whole(0), whole(1), dec(false, 1, 30)), rounded);
    assert_eq!(compute_pv(p, whole(0), whole(365), whole(1000000)), rounded);
    assert_eq!(compute_fv(p, dec(true, 3, 0), whole(1), whole(0)), rounded);
    assert_eq!(compute_pv(p, dec(true, 1, 0), whole(1), whole(0)), rounded);
    assert_eq!(compute_fv(whole(u128::MAX), whole(0), whole(1), whole(5)), Ok(whole(u128::MAX)));
}

#[test]
fn zero_growth_factor_is_rejected_when_divided_by() {
    // rate -1 with one period a year makes 1 + r/n zero.
    assert_eq!(
        compute_pv(whole(1000), dec(true, 1, 0), whole(1), whole(1)),
        Err(FormulaError::ZeroGrowthFactor)
    );
    assert_eq!(compute_fv(whole(1000), dec(true, 1, 0), whole(1), whole(1)), Ok(whole(0)));
}

#[test]
fn out_of_range_results_are_rejected() {
    assert_eq!(
        compute_fv(whole(u128::MAX), whole(1), whole(1), whole(10)),
        Err(FormulaError::OutOfRange)
    );
}
