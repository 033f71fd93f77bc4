//! Time value of money: exact future and present value of a lump sum,
//! together with the validation of the numeric text fields that feed it.

mod natural;
pub mod decimal;
pub mod formula;
mod formula_lemmas;
pub mod formula_laws;
pub mod text;
pub mod compounding;
pub mod number_text;
pub mod numeric_field;
pub mod currency;
pub mod calculation;
