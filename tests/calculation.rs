use future_value::calculation::CalculationInput;
use future_value::compounding::Compounding;
use future_value::decimal::Decimal;
use future_value::formula::FormulaError;

#[test]
fn shows_the_future_value() {
    let input = CalculationInput {
        principal: Decimal::from_integer(1000),
        annual_rate: Decimal::new(false, 3875, 5),
        frequency: Compounding::Annual,
        years: Decimal::from_integer(7),
    };
    assert_eq!(input.future_value(), Ok(Decimal::new(false, 130490, 2)));
    assert_eq!(input.future_value_text(), Ok("1,304.90".to_string()));
}

#[test]
fn shows_a_value_over_part_of_a_period() {
    // 1000 * (1 + 0.03875/4)^8.4 = 1084.3528...
    let input = CalculationInput {
        principal: Decimal::from_integer(1000),
        annual_rate: Decimal::new(false, 3875, 5),
        frequency: Compounding::Quarterly,
        years: Decimal::new(false, 21, 1),
    };
    assert_eq!(input.future_value_text(), Ok("1,084.35".to_string()));
}

#[test]
fn reports_why_no_value_is_shown() {
    let input = CalculationInput {
        principal: Decimal::from_integer(1000),
        annual_rate: Decimal::new(false, 3875, 5),
        frequency: Compounding::Other(Decimal::from_integer(0)),
        years: Decimal::new(false, 21, 1),
    };
    assert_eq!(input.future_value_text(), Err(FormulaError::NonPositivePeriods));
}

#[test]
fn daily_compounding_over_half_a_period() {
    // 1000 * (1 + 0.03875/365)^2737.5 = 1337.2423...
    let input = CalculationInput {
        principal: Decimal::from_integer(1000),
        annual_rate: Decimal::new(false, 3875, 5),
        frequency: Compounding::Daily,
        years: Decimal::new(false, 75, 1),
    };
    assert_eq!(input.future_value_text(), Ok("1,337.24".to_string()));
}

#[test]
fn monthly_mortgage_sized_amount() {
    // 250000 * (1 + 0.06/12)^360 = 1505643.8030...
    let input = CalculationInput {
        principal: Decimal::from_integer(250000),
        annual_rate: Decimal::new(false, 6, 2),
        frequency: Compounding::Monthly,
        years: Decimal::from_integer(30),
    };
    assert_eq!(input.future_value_text(), Ok("1,505,643.80".to_string()));
}
