//! Writing an amount of money as text: dollars grouped by thousands, a decimal
//! point and two digits of cents (`1,307.89`).

use crate::decimal::{
    lemma_decimal_of_value, lemma_pow10_positive, lemma_pow10_two, lemma_reduced_bounds,
    lemma_reduced_value, pow10, reduced, Decimal,
};
use crate::formula::{
    cents_of, lemma_truncated_fixed, lemma_truncated_shape, magnitude, truncate_to_two_decimal_places,
    truncated,
};
use crate::formula_lemmas::lemma_round_div_exact;
use crate::text::{chars_of, string_from_chars};
use num_format::{Locale, ToFormattedString};
use vstd::prelude::*;

verus! {

/// The character of the decimal digit `d`.
pub open spec fn digit_char(d: nat) -> char {
    if d == 0 {
        '0'
    } else if d == 1 {
        '1'
    } else if d == 2 {
        '2'
    } else if d == 3 {
        '3'
    } else if d == 4 {
        '4'
    } else if d == 5 {
        '5'
    } else if d == 6 {
        '6'
    } else if d == 7 {
        '7'
    } else if d == 8 {
        '8'
    } else {
        '9'
    }
}

/// The decimal digits of `n`, without leading zeros.
pub open spec fn decimal_digits(n: nat) -> Seq<char>
    decreases n,
{
    if n < 10 {
        seq![digit_char(n)]
    } else {
        decimal_digits(n / 10).push(digit_char(n % 10))
    }
}

/// `n` below a thousand as exactly three digits.
pub open spec fn three_digits(n: nat) -> Seq<char> {
    seq![digit_char(n / 100), digit_char((n / 10) % 10), digit_char(n % 10)]
}

/// `n` below a hundred as exactly two digits.
pub open spec fn two_digits(n: nat) -> Seq<char> {
    seq![digit_char(n / 10), digit_char(n % 10)]
}

/// The decimal digits of `n` with a comma between groups of three, counted
/// from the right.
pub open spec fn grouped_digits(n: nat) -> Seq<char>
    decreases n,
{
    if n < 1000 {
        decimal_digits(n)
    } else {
        grouped_digits(n / 1000) + seq![','] + three_digits(n % 1000)
    }
}

/// An amount as currency text: rounded to cents, a minus sign when below zero,
/// grouped dollars, a point and two digits of cents.
pub open spec fn currency_text(amount: Decimal) -> Seq<char> {
    let c = cents_of(amount);
    let m: nat = if c < 0 { (-c) as nat } else { c as nat };
    (if c < 0 { seq!['-'] } else { Seq::empty() }) + grouped_digits(m / 100) + seq!['.'] + two_digits(
        m % 100,
    )
}

/// Relies on num_format's `ToFormattedString::to_formatted_string` with
/// `Locale::en`: the digits of `n` with `,` between groups of three.
#[verifier::external_body]
fn group_thousands(n: u128) -> (r: String)
    ensures
        r@ == grouped_digits(n as nat),
{
    n.to_formatted_string(&Locale::en)
}

fn digit_char_of(d: u128) -> (r: char)
    requires
        d < 10,
    ensures
        r == digit_char(d as nat),
{
    if d == 0 {
        '0'
    } else if d == 1 {
        '1'
    } else if d == 2 {
        '2'
    } else if d == 3 {
        '3'
    } else if d == 4 {
        '4'
    } else if d == 5 {
        '5'
    } else if d == 6 {
        '6'
    } else if d == 7 {
        '7'
    } else if d == 8 {
        '8'
    } else {
        '9'
    }
}

/// Writes an amount as currency text (`1,307.89`), after rounding it to cents.
pub fn format_currency(amount: Decimal) -> (r: String)
    requires
        amount.wf(),
    ensures
        r@ == currency_text(amount),
{
    let t = truncate_to_two_decimal_places(amount);
    proof {
        lemma_truncated_shape(amount);
    }
    let ghost c = cents_of(amount);
    let ghost m: nat = magnitude(c);
    proof {
        lemma_reduced_value(m, 2);
        lemma_reduced_bounds(m, 2);
        assert(t.coefficient == reduced(m, 2).0 && t.scale == reduced(m, 2).1);
        assert(t.negative == (c < 0));
        reveal_with_fuel(pow10, 3);
    }
    let (dollars, cents) = if t.scale == 0 {
        (t.coefficient, 0)
    } else if t.scale == 1 {
        (t.coefficient / 10, (t.coefficient % 10) * 10)
    } else {
        (t.coefficient / 100, t.coefficient % 100)
    };
    proof {
        let c2 = reduced(m, 2).0;
        let s2 = reduced(m, 2).1;
        assert(pow10(2) == 100 && pow10(1) == 10 && pow10(0) == 1);
        if t.scale == 0 {
            assert(m == 100 * t.coefficient) by (nonlinear_arith)
                requires
                    c2 * pow10(2) == m * pow10(s2),
                    pow10(2) == 100,
                    pow10(s2) == 1,
                    c2 == t.coefficient,
            ;
        } else if t.scale == 1 {
            assert(m == 10 * t.coefficient) by (nonlinear_arith)
                requires
                    c2 * pow10(2) == m * pow10(s2),
                    pow10(2) == 100,
                    pow10(s2) == 10,
                    c2 == t.coefficient,
            ;
        } else {
            assert(m == t.coefficient) by (nonlinear_arith)
                requires
                    c2 * pow10(2) == m * pow10(s2),
                    pow10(2) == 100,
                    pow10(s2) == 100,
                    c2 == t.coefficient,
            ;
        }
    }
    assert(dollars == m / 100 && cents == m % 100);
    let mut out: Vec<char> = Vec::new();
    if t.negative {
        out.push('-');
    }
    let grouped = group_thousands(dollars);
    let g = chars_of(grouped.as_str());
    let mut i: usize = 0;
    let ghost start = out@;
    while i < g.len()
        invariant
            i <= g.len(),
            out@ == start + g@.subrange(0, i as int),
        decreases g.len() - i,
    {
        out.push(g[i]);
        i = i + 1;
        assert(out@ =~= start + g@.subrange(0, i as int));
    }
    assert(g@.subrange(0, g.len() as int) =~= g@);
    out.push('.');
    out.push(digit_char_of(cents / 10));
    out.push(digit_char_of(cents % 10));
    assert(out@ =~= currency_text(amount));
    string_from_chars(&out)
}

/// An amount already rounded to cents is written with exactly those cents:
/// writing an amount and writing its rounding to cents give the same text.
pub proof fn currency_text_of_rounded_amount(amount: Decimal)
    requires
        amount.wf(),
    ensures
        currency_text(truncated(amount)) == currency_text(amount),
        cents_of(truncated(amount)) == cents_of(amount),
{
    lemma_truncated_shape(amount);
    if amount.scale <= 2 {
        lemma_truncated_fixed(amount);
    } else {
        let t = truncated(amount);
        let c = cents_of(amount);
        lemma_pow10_two();
        lemma_decimal_of_value(c, 2);
        lemma_pow10_positive(t.scale as nat);
        // t is c / 100, so 100 t is c exactly.
        assert(100 * t.numerator() == c * t.denominator()) by (nonlinear_arith)
            requires
                t.numerator() * pow10(2) == c * t.denominator(),
                pow10(2) == 100,
        ;
        lemma_round_div_exact(c, t.denominator());
        assert(c * t.denominator() == 100 * t.numerator()) by (nonlinear_arith)
            requires
                100 * t.numerator() == c * t.denominator(),
        ;
    }
}

} // verus!
