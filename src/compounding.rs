//! How often interest is compounded.

use crate::decimal::{decimal_of, Decimal};
use crate::text::same_text;
use vstd::prelude::*;

verus! {

/// A compounding frequency: a named number of periods per year, or any other.
#[derive(Clone, Copy, Debug, PartialEq, Eq, Structural)]
pub enum Compounding {
    Annual,
    Semiannually,
    Quarterly,
    Monthly,
    Weekly,
    Daily,
    Other(Decimal),
}

/// The number of compounding periods in a year.
pub open spec fn periods_in_year(c: Compounding) -> Decimal {
    match c {
        Compounding::Annual => decimal_of(1, 0),
        Compounding::Semiannually => decimal_of(2, 0),
        Compounding::Quarterly => decimal_of(4, 0),
        Compounding::Monthly => decimal_of(12, 0),
        Compounding::Weekly => decimal_of(52, 0),
        Compounding::Daily => decimal_of(365, 0),
        Compounding::Other(periods) => periods,
    }
}

/// The label shown for a frequency.
pub open spec fn label_of(c: Compounding) -> Seq<char> {
    match c {
        Compounding::Annual => "Annually"@,
        Compounding::Semiannually => "Semi-annually"@,
        Compounding::Quarterly => "Quarterly"@,
        Compounding::Monthly => "Monthly"@,
        Compounding::Weekly => "Weekly"@,
        Compounding::Daily => "Daily"@,
        Compounding::Other(_) => "Custom"@,
    }
}

/// The frequency that a selection token names, if any.
pub open spec fn frequency_of_token(t: Seq<char>) -> Option<Compounding> {
    if t == "annual"@ {
        Some(Compounding::Annual)
    } else if t == "semiannual"@ {
        Some(Compounding::Semiannually)
    } else if t == "quarterly"@ {
        Some(Compounding::Quarterly)
    } else if t == "monthly"@ {
        Some(Compounding::Monthly)
    } else if t == "weekly"@ {
        Some(Compounding::Weekly)
    } else if t == "daily"@ {
        Some(Compounding::Daily)
    } else {
        None
    }
}

impl Compounding {
    pub open spec fn wf(self) -> bool {
        match self {
            Compounding::Other(periods) => periods.wf(),
            _ => true,
        }
    }

    /// The number of compounding periods in a year.
    pub fn periods_per_year(&self) -> (r: Decimal)
        requires
            self.wf(),
        ensures
            r == periods_in_year(*self),
            r.wf(),
    {
        match self {
            Compounding::Annual => Decimal::from_integer(1),
            Compounding::Semiannually => Decimal::from_integer(2),
            Compounding::Quarterly => Decimal::from_integer(4),
            Compounding::Monthly => Decimal::from_integer(12),
            Compounding::Weekly => Decimal::from_integer(52),
            Compounding::Daily => Decimal::from_integer(365),
            Compounding::Other(periods) => *periods,
        }
    }

    /// The label shown for this frequency.
    pub fn to_string(&self) -> (r: &'static str)
        ensures
            r@ == label_of(*self),
    {
        match self {
            Compounding::Annual => "Annually",
            Compounding::Semiannually => "Semi-annually",
            Compounding::Quarterly => "Quarterly",
            Compounding::Monthly => "Monthly",
            Compounding::Weekly => "Weekly",
            Compounding::Daily => "Daily",
            Compounding::Other(_) => "Custom",
        }
    }

    /// The frequency named by a selection token (`"annual"`, `"semiannual"`,
    /// `"quarterly"`, `"monthly"`, `"weekly"`, `"daily"`); `None` for any other text.
    pub fn from_token(token: &str) -> (r: Option<Compounding>)
        ensures
            r == frequency_of_token(token@),
    {
        if same_text(token, "annual") {
            Some(Compounding::Annual)
        } else if same_text(token, "semiannual") {
            Some(Compounding::Semiannually)
        } else if same_text(token, "quarterly") {
            Some(Compounding::Quarterly)
        } else if same_text(token, "monthly") {
            Some(Compounding::Monthly)
        } else if same_text(token, "weekly") {
            Some(Compounding::Weekly)
        } else if same_text(token, "daily") {
            Some(Compounding::Daily)
        } else {
            None
        }
    }
}

/// The frequency after choosing `token` in a selection control: the one it
/// names, or `current` unchanged for a token that names none.
pub fn select_frequency(current: Compounding, token: &str) -> (r: Compounding)
    ensures
        r == match frequency_of_token(token@) {
            Some(c) => c,
            None => current,
        },
{
    match Compounding::from_token(token) {
        Some(c) => c,
        None => current,
    }
}

} // verus!
