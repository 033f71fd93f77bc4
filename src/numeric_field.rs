//! A numeric text field: the raw text a user typed, the last number accepted
//! from it, and whether the current text is acceptable.

use crate::decimal::Decimal;
use crate::number_text::{parse_number, parsed, ParsedNumber};
use crate::text::{is_blank, is_blank_text, string_from_chars};
use vstd::prelude::*;

verus! {

/// The text with every thousands separator (`,`) and space removed.
pub open spec fn cleaned(s: Seq<char>) -> Seq<char>
    decreases s.len(),
{
    if s.len() == 0 {
        Seq::empty()
    } else if s.last() == ',' || s.last() == ' ' {
        cleaned(s.drop_last())
    } else {
        cleaned(s.drop_last()).push(s.last())
    }
}

/// The number a cleaned text sets, if it is accepted: exact and greater than zero.
pub open spec fn accepted_value(t: Seq<char>) -> Option<Decimal> {
    match parsed(t) {
        ParsedNumber::Exact(d) => if d.numerator() > 0 {
            Some(d)
        } else {
            None
        },
        _ => None,
    }
}

/// Whether what the text reads as is zero or below.
pub open spec fn not_above_zero(p: ParsedNumber) -> bool {
    match p {
        ParsedNumber::Exact(d) => d.numerator() <= 0,
        ParsedNumber::Infinite { negative } => negative,
        ParsedNumber::Inexact { negative } => negative,
        _ => false,
    }
}

/// The message shown for rejected text in the field called `field`.
pub open spec fn error_text(input: Seq<char>, field: Seq<char>) -> Seq<char> {
    let p = parsed(cleaned(input));
    if p == ParsedNumber::Malformed {
        "Please enter a valid number (digits and decimal point only)"@
    } else if not_above_zero(p) {
        field + " must be greater than zero"@
    } else {
        "Invalid number format"@
    }
}

/// Removes the thousands separators (`,`) and spaces from typed text.
pub fn clean_input(input_text: &str) -> (r: String)
    ensures
        r@ == cleaned(input_text@),
{
    let n = input_text.unicode_len();
    let mut out: Vec<char> = Vec::new();
    let mut i: usize = 0;
    while i < n
        invariant
            n == input_text@.len(),
            i <= n,
            out@ == cleaned(input_text@.subrange(0, i as int)),
        decreases n - i,
    {
        let c = input_text.get_char(i);
        assert(input_text@.subrange(0, i + 1).drop_last() =~= input_text@.subrange(0, i as int));
        if c != ',' && c != ' ' {
            out.push(c);
        }
        i = i + 1;
    }
    assert(input_text@.subrange(0, n as int) =~= input_text@);
    string_from_chars(&out)
}

/// Checks cleaned text: when it is an exact number greater than zero, marks the
/// field valid and stores the number; otherwise marks it invalid and keeps the
/// stored number. Returns whether the text was accepted.
pub fn validate_numeric_input(cleaned_input: &str, validity: &mut bool, value: &mut Decimal) -> (r:
    bool)
    ensures
        r == (accepted_value(cleaned_input@) is Some),
        *final(validity) == r,
        accepted_value(cleaned_input@) matches Some(d) ==> d.wf() && d.numerator() > 0,
        *final(value) == match accepted_value(cleaned_input@) {
            Some(d) => d,
            None => *old(value),
        },
{
    match parse_number(cleaned_input) {
        ParsedNumber::Exact(d) => {
            if d.is_positive() {
                *validity = true;
                *value = d;
                true
            } else {
                *validity = false;
                false
            }
        },
        _ => {
            *validity = false;
            false
        },
    }
}

/// The message for rejected text in the field called `field_name`.
pub fn get_numeric_error_message(input_text: &str, field_name: &str) -> (r: String)
    ensures
        r@ == error_text(input_text@, field_name@),
{
    let cleaned_input = clean_input(input_text);
    let p = parse_number(cleaned_input.as_str());
    match p {
        ParsedNumber::Malformed => String::from_str(
            "Please enter a valid number (digits and decimal point only)",
        ),
        _ => {
            let below = match p {
                ParsedNumber::Exact(d) => !d.is_positive(),
                ParsedNumber::Infinite { negative } => negative,
                ParsedNumber::Inexact { negative } => negative,
                _ => false,
            };
            if below {
                let mut m = String::from_str(field_name);
                m.append(" must be greater than zero");
                m
            } else {
                String::from_str("Invalid number format")
            }
        },
    }
}

/// The state of one numeric text field.
#[derive(Debug)]
pub struct NumericField {
    /// Exactly what the user typed.
    pub raw_text: String,
    /// The last number accepted.
    pub value: Decimal,
    /// Whether the current text is acceptable (blank text counts as acceptable).
    pub is_valid: bool,
}

impl NumericField {
    /// The number held is a well-formed decimal above zero.
    pub open spec fn wf(&self) -> bool {
        self.value.wf() && self.value.numerator() > 0
    }

    /// A field showing `raw_text` and holding `value`, marked valid.
    pub fn new(raw_text: &str, value: Decimal) -> (r: NumericField)
        requires
            value.wf(),
            value.numerator() > 0,
        ensures
            r.wf(),
            r.raw_text@ == raw_text@,
            r.value == value,
            r.is_valid,
    {
        NumericField { raw_text: String::from_str(raw_text), value, is_valid: true }
    }

    /// The field after the user changes its text to `text`. Blank text is
    /// acceptable and keeps the number; other text is cleaned of separators and
    /// spaces, and sets the number only when it reads as an exact number greater
    /// than zero. Rejected text keeps the last number.
    pub fn edit(&self, text: &str) -> (r: NumericField)
        requires
            self.wf(),
        ensures
            r.wf(),
            r.raw_text@ == text@,
            is_blank(text@) ==> r.is_valid && r.value == self.value,
            !is_blank(text@) ==> r.is_valid == (accepted_value(cleaned(text@)) is Some),
            !is_blank(text@) ==> r.value == match accepted_value(cleaned(text@)) {
                Some(d) => d,
                None => self.value,
            },
    {
        let mut is_valid = self.is_valid;
        let mut value = self.value;
        if is_blank_text(text) {
            is_valid = true;
        } else {
            let cleaned_input = clean_input(text);
            validate_numeric_input(cleaned_input.as_str(), &mut is_valid, &mut value);
        }
        NumericField { raw_text: String::from_str(text), value, is_valid }
    }

    /// Whether an error is shown: the text is rejected and not blank.
    pub fn shows_error(&self) -> (r: bool)
        ensures
            r == (!self.is_valid && !is_blank(self.raw_text@)),
    {
        !self.is_valid && !is_blank_text(self.raw_text.as_str())
    }

    /// The message to show under the field called `field_name`, if any.
    pub fn error_message(&self, field_name: &str) -> (r: Option<String>)
        ensures
            r is Some == (!self.is_valid && !is_blank(self.raw_text@)),
            r matches Some(m) ==> m@ == error_text(self.raw_text@, field_name@),
    {
        if self.shows_error() {
            Some(get_numeric_error_message(self.raw_text.as_str(), field_name))
        } else {
            None
        }
    }
}

} // verus!
