//! The inputs of one future value calculation, as a view reads them from its
//! fields, and the result it shows.

use crate::compounding::{periods_in_year, Compounding};
use crate::currency::{currency_text, format_currency};
use crate::decimal::Decimal;
use crate::formula::{compute_fv, future_value, FormulaError};
use vstd::prelude::*;

verus! {

/// A principal, an annual rate (a fraction: `0.04` is 4%), a compounding
/// frequency and a number of years.
#[derive(Clone, Copy, Debug, PartialEq, Eq, Structural)]
pub struct CalculationInput {
    pub principal: Decimal,
    pub annual_rate: Decimal,
    pub frequency: Compounding,
    pub years: Decimal,
}

impl CalculationInput {
    pub open spec fn wf(self) -> bool {
        &&& self.principal.wf()
        &&& self.annual_rate.wf()
        &&& self.frequency.wf()
        &&& self.years.wf()
    }

    /// The future value of the principal, rounded to cents.
    pub fn future_value(&self) -> (r: Result<Decimal, FormulaError>)
        requires
            self.wf(),
        ensures
            r == future_value(
                self.principal,
                self.annual_rate,
                periods_in_year(self.frequency),
                self.years,
            ),
            r matches Ok(d) ==> d.wf(),
    {
        let periods = self.frequency.periods_per_year();
        compute_fv(self.principal, self.annual_rate, periods, self.years)
    }

    /// The future value written as currency (`1,307.89`).
    pub fn future_value_text(&self) -> (r: Result<String, FormulaError>)
        requires
            self.wf(),
        ensures
            match future_value(
                self.principal,
                self.annual_rate,
                periods_in_year(self.frequency),
                self.years,
            ) {
                Ok(d) => r matches Ok(s) && s@ == currency_text(d),
                Err(e) => r matches Err(f) && f == e,
            },
    {
        match self.future_value() {
            Ok(d) => Ok(format_currency(d)),
            Err(e) => Err(e),
        }
    }
}

} // verus!
