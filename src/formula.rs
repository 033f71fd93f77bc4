//! Future and present value of a lump sum, rounded to cents.

use crate::decimal::{
    decimal_of, lemma_decimal_of_wf, lemma_pow10_adds, lemma_pow10_is_pow, lemma_pow10_monotonic,
    lemma_pow10_positive, lemma_pow10_two, lemma_reduced_bounds, lemma_reduced_of_wf,
    lemma_reduced_shift, pow10, reduced, Decimal,
};
use crate::natural::{
    nat_add, nat_div_rem, nat_from_u128, nat_le, nat_mul, nat_pow, nat_sub, nat_to_u128,
    Natural,
};
use crate::formula_lemmas::{
    lemma_pow_at_least_base, lemma_pow_signed, lemma_root_floor_unique, lemma_round_div_exact, lemma_round_div_scale,
    lemma_round_half_up, lemma_round_signed, lemma_signed_mul,
};
use vstd::arithmetic::power::pow;
use vstd::prelude::*;

verus! {

/// `n / d` rounded to the nearest integer, halves away from zero (`d > 0`).
pub open spec fn round_div(n: int, d: int) -> int {
    if n >= 0 {
        (2 * n + d) / (2 * d)
    } else {
        -((2 * -n + d) / (2 * d))
    }
}

/// The amount in cents, rounded to the nearest cent.
pub open spec fn cents_of(x: Decimal) -> int {
    round_div(100 * x.numerator(), x.denominator())
}

/// The size of an integer.
pub open spec fn magnitude(i: int) -> nat {
    if i < 0 {
        (-i) as nat
    } else {
        i as nat
    }
}

/// The amount rounded to two decimal places.
pub open spec fn truncated(x: Decimal) -> Decimal {
    decimal_of(cents_of(x), 2)
}

/// Ten to the power `k`, for `k` up to 38.
pub fn pow10_u128(k: u32) -> (r: u128)
    requires
        k <= 38,
    ensures
        r == pow10(k as nat),
{
    proof {
        assert(pow10(37) == 10000000000000000000000000000000000000nat) by {
            reveal_with_fuel(pow10, 38);
        }
    }
    let mut r: u128 = 1;
    let mut i: u32 = 0;
    while i < k
        invariant
            i <= k <= 38,
            r == pow10(i as nat),
            pow10(37) == 10000000000000000000000000000000000000nat,
        decreases k - i,
    {
        proof {
            lemma_pow10_monotonic(i as nat, 37);
        }
        r = r * 10;
        i = i + 1;
    }
    r
}

/// An amount already in whole cents is left as it is.
pub(crate) proof fn lemma_truncated_fixed(x: Decimal)
    requires
        x.wf(),
        x.scale <= 2,
    ensures
        truncated(x) == x,
        reduced(magnitude(cents_of(x)), 2) == (x.coefficient as nat, x.scale as nat),
{
    let j = (2 - x.scale) as nat;
    lemma_pow10_two();
    lemma_pow10_adds(x.scale as nat, j);
    assert(100 * x.numerator() == (x.numerator() * pow10(j)) * x.denominator())
        by (nonlinear_arith)
        requires
            pow10(x.scale as nat + j) == pow10(x.scale as nat) * pow10(j),
            x.scale as nat + j == 2,
            pow10(2) == 100,
            x.denominator() == pow10(x.scale as nat),
    ;
    lemma_pow10_positive(x.scale as nat);
    lemma_round_div_exact(x.numerator() * pow10(j), x.denominator());
    lemma_reduced_shift(x.coefficient as nat, x.scale as nat, j);
    let c = x.coefficient as nat;
    assert(x.numerator() * pow10(j) == if x.negative { -((c * pow10(j)) as int) } else { (c * pow10(j)) as int }) by (nonlinear_arith)
        requires
            x.numerator() == if x.negative { -(c as int) } else { c as int },
    ;
    lemma_pow10_positive(j);
    if x.negative {
        assert(c * pow10(j) > 0) by (nonlinear_arith)
            requires c > 0, pow10(j) >= 1;
    }
    lemma_reduced_of_wf(x);
}

/// Rounds an amount to whole cents (halves away from zero).
pub fn truncate_to_two_decimal_places(value: Decimal) -> (r: Decimal)
    requires
        value.wf(),
    ensures
        r == truncated(value),
        r.wf(),
{
    if value.scale <= 2 {
        proof {
            lemma_truncated_fixed(value);
        }
        value
    } else {
        proof {
            lemma_pow10_monotonic(1, (value.scale - 2) as nat);
            reveal_with_fuel(pow10, 2);
        }
        let d = pow10_u128(value.scale - 2);
        let q = value.coefficient / d;
        let rem = value.coefficient % d;
        proof {
            vstd::arithmetic::div_mod::lemma_fundamental_div_mod(value.coefficient as int, d as int);
            assert(q < u128::MAX) by (nonlinear_arith)
                requires
                    d >= 10,
                    d * q + rem == value.coefficient,
                    rem >= 0,
                    q >= 0,
                    value.coefficient <= u128::MAX,
            ;
        }
        let rounded = if rem >= d - rem { q + 1 } else { q };
        proof {
            let k = (value.scale - 2) as nat;
            lemma_pow10_positive(k);
            lemma_pow10_adds(2, k);
            lemma_pow10_two();
            lemma_round_half_up(value.coefficient as nat, d as nat);
            lemma_round_div_scale(value.numerator(), d as int, 100);
            assert(value.denominator() == 100 * d);
            assert(round_div(100 * value.numerator(), value.denominator()) == round_div(value.numerator(), d as int));
        }
        Decimal::new(value.negative, rounded, 2)
    }
}

/// The largest numerator of the number of compounding periods, as a fraction
/// in lowest terms, that a calculation accepts. The result is exact, so the
/// growth factor's numerator and denominator are raised to this power as whole
/// numbers: each period adds their digits again. A million periods (daily
/// compounding over more than 2700 years) keeps those numbers to some tens of
/// megabytes.
pub const MAX_PERIODS: u32 = 1000000;

/// The largest denominator of the number of compounding periods, as a fraction
/// in lowest terms, that a calculation accepts. For a fraction `p / q` of a
/// period the amount is raised to the power `q` before a `q`-th root is taken,
/// which again multiplies the size of the numbers by `q`; a million allows
/// years written with six decimal places.
pub const MAX_PERIOD_DIVISIONS: u32 = 1000000;

/// Why a future or present value cannot be computed.
#[derive(Clone, Copy, Debug, PartialEq, Eq, Structural)]
pub enum FormulaError {
    /// The number of compounding periods per year is zero or negative.
    NonPositivePeriods,
    /// Periods per year times years, in lowest terms, has a denominator above
    /// `MAX_PERIOD_DIVISIONS`.
    TooFinePeriods,
    /// Periods per year times years, in lowest terms, has a numerator above
    /// `MAX_PERIODS`.
    TooManyPeriods,
    /// The growth factor `1 + rate / periods` is zero and would be divided by.
    ZeroGrowthFactor,
    /// The growth factor `1 + rate / periods` is negative and would be raised to
    /// a fractional power.
    NegativeGrowthFactor,
    /// The result, in cents, does not fit in a `u128`.
    OutOfRange,
}

/// `mag` with the given sign.
pub open spec fn signed(negative: bool, mag: int) -> int {
    if negative {
        -mag
    } else {
        mag
    }
}

/// `x / q` with the common factors 2 and 5 cancelled (lowest terms when `q` is
/// a power of ten).
pub open spec fn lowest_terms(x: nat, q: nat) -> (nat, nat)
    decreases q,
{
    if q > 0 && x % 2 == 0 && q % 2 == 0 {
        lowest_terms(x / 2, q / 2)
    } else if q > 0 && x % 5 == 0 && q % 5 == 0 {
        lowest_terms(x / 5, q / 5)
    } else {
        (x, q)
    }
}

/// The number of compounding periods, `periods * years`, as a fraction `p / q`
/// in lowest terms.
pub open spec fn period_count(periods: Decimal, years: Decimal) -> Result<(int, nat), FormulaError> {
    let p = periods.numerator() * years.numerator();
    let q = periods.denominator() * years.denominator();
    let (pm, qm) = lowest_terms(magnitude(p), q as nat);
    if periods.numerator() <= 0 {
        Err(FormulaError::NonPositivePeriods)
    } else if qm > MAX_PERIOD_DIVISIONS {
        Err(FormulaError::TooFinePeriods)
    } else if pm > MAX_PERIODS {
        Err(FormulaError::TooManyPeriods)
    } else {
        Ok((signed(p < 0, pm as int), qm))
    }
}

/// Numerator of the growth factor `1 + rate / periods`, over `growth_denominator`.
pub open spec fn growth_numerator(rate: Decimal, periods: Decimal) -> int {
    periods.numerator() * rate.denominator() + rate.numerator() * periods.denominator()
}

/// Denominator of the growth factor `1 + rate / periods`.
pub open spec fn growth_denominator(rate: Decimal, periods: Decimal) -> int {
    periods.numerator() * rate.denominator()
}

/// `amount * (a / b)^e` as a fraction `x / y` with `y > 0` (given `b > 0`, and `a != 0` when `e < 0`).
pub open spec fn grown(amount: Decimal, a: int, b: int, e: int) -> (int, int) {
    if e >= 0 {
        (amount.numerator() * pow(a, e as nat), amount.denominator() * pow(b, e as nat))
    } else {
        let x = amount.numerator() * pow(b, (-e) as nat);
        let y = amount.denominator() * pow(a, (-e) as nat);
        if y < 0 {
            (-x, -y)
        } else {
            (x, y)
        }
    }
}

/// `amount * (a / b)^e`, rounded to cents.
pub open spec fn grown_in_cents(amount: Decimal, a: int, b: int, e: int) -> Result<
    Decimal,
    FormulaError,
> {
    if e < 0 && a == 0 {
        Err(FormulaError::ZeroGrowthFactor)
    } else {
        let c = round_div(100 * grown(amount, a, b, e).0, grown(amount, a, b, e).1);
        if c > u128::MAX || c < -(u128::MAX as int) {
            Err(FormulaError::OutOfRange)
        } else {
            Ok(decimal_of(c, 2))
        }
    }
}

/// The `u` with `u^q * d <= n < (u + 1)^q * d`: the floor of the `q`-th root
/// of `n / d`.
pub open spec fn root_floor(n: int, d: int, q: nat) -> int {
    (choose|u: nat| #[trigger] pow(u as int, q) * d <= n && n < pow(u + 1int, q) * d) as int
}

/// `amount * (a / b)^(p / q)`, rounded to cents, for a fractional power
/// (`b > 0`): the cents are `(u + 1) / 2` for `u` the floor of twice the
/// amount in cents, found as a `q`-th root.
pub open spec fn fraction_grown_in_cents(amount: Decimal, a: int, b: int, p: int, q: nat) -> Result<
    Decimal,
    FormulaError,
> {
    if a < 0 {
        Err(FormulaError::NegativeGrowthFactor)
    } else if a == 0 {
        if p < 0 {
            Err(FormulaError::ZeroGrowthFactor)
        } else {
            Ok(decimal_of(0, 2))
        }
    } else {
        let m = magnitude(p);
        let top = if p >= 0 { a } else { b };
        let bottom = if p >= 0 { b } else { a };
        let n = pow(200 * magnitude(amount.numerator()) as int, q) * pow(top, m);
        let d = pow(amount.denominator(), q) * pow(bottom, m);
        let c = (root_floor(n, d, q) + 1) / 2;
        if c > u128::MAX {
            Err(FormulaError::OutOfRange)
        } else {
            Ok(decimal_of(signed(amount.negative, c), 2))
        }
    }
}

/// `amount * (a / b)^(p / q)`, rounded to cents.
pub open spec fn power_in_cents(amount: Decimal, a: int, b: int, p: int, q: nat) -> Result<
    Decimal,
    FormulaError,
> {
    if q == 1 {
        grown_in_cents(amount, a, b, p)
    } else {
        fraction_grown_in_cents(amount, a, b, p, q)
    }
}

/// `principal * (1 + rate / periods)^(periods * years)`, rounded to cents. At a
/// zero rate the growth factor is exactly one, and over zero years the
/// exponent is zero: either way the result is the principal rounded to cents,
/// over any number of periods.
pub open spec fn future_value(principal: Decimal, rate: Decimal, periods: Decimal, years: Decimal) -> Result<
    Decimal,
    FormulaError,
> {
    if periods.numerator() <= 0 {
        Err(FormulaError::NonPositivePeriods)
    } else if rate.numerator() == 0 || years.numerator() == 0 {
        Ok(truncated(principal))
    } else {
        match period_count(periods, years) {
            Err(e) => Err(e),
            Ok((p, q)) => power_in_cents(
                principal,
                growth_numerator(rate, periods),
                growth_denominator(rate, periods),
                p,
                q,
            ),
        }
    }
}

/// `amount / (1 + rate / periods)^(periods * years)`, rounded to cents; the
/// amount rounded to cents at a zero rate or over zero years.
pub open spec fn present_value(amount: Decimal, rate: Decimal, periods: Decimal, years: Decimal) -> Result<
    Decimal,
    FormulaError,
> {
    if periods.numerator() <= 0 {
        Err(FormulaError::NonPositivePeriods)
    } else if rate.numerator() == 0 || years.numerator() == 0 {
        Ok(truncated(amount))
    } else {
        match period_count(periods, years) {
            Err(e) => Err(e),
            Ok((p, q)) => power_in_cents(
                amount,
                growth_numerator(rate, periods),
                growth_denominator(rate, periods),
                -p,
                q,
            ),
        }
    }
}

/// Ten to the power `k`, unbounded.
fn nat_pow10(k: u32) -> (r: Natural)
    ensures
        r.value() == pow10(k as nat),
{
    let ten = nat_from_u128(10);
    proof {
        lemma_pow10_is_pow(k as nat);
    }
    nat_pow(&ten, k)
}

/// Whether the number is zero.
fn nat_is_zero(a: &Natural) -> (r: bool)
    ensures
        r == (a.value() == 0),
{
    match nat_to_u128(a) {
        Some(x) => x == 0,
        None => false,
    }
}

/// Whether `d` divides `x` (`d > 0`).
fn nat_divides(x: &Natural, d: u128) -> (r: bool)
    requires
        d > 0,
    ensures
        r == (x.value() % (d as nat) == 0),
{
    let (_, rem) = nat_div_rem(x, &nat_from_u128(d));
    nat_is_zero(&rem)
}

/// `x / d` for `d > 0`.
fn nat_div(x: &Natural, d: u128) -> (r: Natural)
    requires
        d > 0,
    ensures
        r.value() == x.value() / (d as nat),
{
    nat_div_rem(x, &nat_from_u128(d)).0
}

/// The number of periods in `periods * years`, as a sign, a numerator and a
/// denominator in lowest terms.
fn count_periods(periods: Decimal, years: Decimal) -> (r: Result<(bool, u32, u32), FormulaError>)
    requires
        periods.wf(),
        years.wf(),
    ensures
        match r {
            Ok((neg, p, q)) => period_count(periods, years) == Ok::<(int, nat), FormulaError>(
                (signed(neg, p as int), q as nat),
            ) && (neg ==> p > 0) && q >= 1,
            Err(e) => period_count(periods, years) == Err::<(int, nat), FormulaError>(e),
        },
{
    if periods.negative || periods.coefficient == 0 {
        return Err(FormulaError::NonPositivePeriods);
    }
    let n = nat_from_u128(periods.coefficient);
    let t = nat_from_u128(years.coefficient);
    let mut x = nat_mul(&n, &t);
    let mut q = nat_pow10(periods.scale + years.scale);
    let ghost p0 = periods.numerator() * years.numerator();
    let ghost q0 = periods.denominator() * years.denominator();
    proof {
        lemma_pow10_positive((periods.scale + years.scale) as nat);
        lemma_pow10_adds(periods.scale as nat, years.scale as nat);
        lemma_signed_mul(false, periods.coefficient as int, years.negative, years.coefficient as int);
        assert(years.numerator() == signed(years.negative, years.coefficient as int));
        assert(magnitude(p0) == x.value());
        assert(q0 == q.value());
    }
    let neg = years.negative && years.coefficient > 0;
    assert(neg == (p0 < 0)) by (nonlinear_arith)
        requires
            p0 == signed(years.negative, periods.coefficient * years.coefficient),
            periods.coefficient > 0,
            neg == (years.negative && years.coefficient > 0),
    ;
    loop
        invariant
            q.value() > 0,
            lowest_terms(x.value(), q.value()) == lowest_terms(magnitude(p0), q0 as nat),
        ensures
            q.value() > 0,
            lowest_terms(x.value(), q.value()) == lowest_terms(magnitude(p0), q0 as nat),
            lowest_terms(x.value(), q.value()) == (x.value(), q.value()),
        decreases q.value(),
    {
        if nat_divides(&x, 2) && nat_divides(&q, 2) {
            x = nat_div(&x, 2);
            q = nat_div(&q, 2);
        } else if nat_divides(&x, 5) && nat_divides(&q, 5) {
            x = nat_div(&x, 5);
            q = nat_div(&q, 5);
        } else {
            break;
        }
    }
    let qm = match nat_to_u128(&q) {
        None => {
            return Err(FormulaError::TooFinePeriods);
        },
        Some(v) => v,
    };
    if qm > MAX_PERIOD_DIVISIONS as u128 {
        return Err(FormulaError::TooFinePeriods);
    }
    match nat_to_u128(&x) {
        None => Err(FormulaError::TooManyPeriods),
        Some(pm) => {
            if pm > MAX_PERIODS as u128 {
                Err(FormulaError::TooManyPeriods)
            } else {
                proof {
                    if pm == 0 {
                        assert(signed(p0 < 0, 0) == signed(false, 0));
                    }
                }
                Ok((neg && pm > 0, pm as u32, qm as u32))
            }
        },
    }
}

/// The growth factor `1 + rate / periods` as a signed numerator (sign, magnitude)
/// over a positive denominator.
fn growth_factor(rate: Decimal, periods: Decimal) -> (r: (bool, Natural, Natural))
    requires
        rate.wf(),
        periods.wf(),
        periods.numerator() > 0,
    ensures
        signed(r.0, r.1.value() as int) == growth_numerator(rate, periods),
        r.2.value() == growth_denominator(rate, periods),
        r.2.value() > 0,
        r.0 ==> r.1.value() > 0,
{
    let n = nat_from_u128(periods.coefficient);
    let b = nat_mul(&n, &nat_pow10(rate.scale));
    let x = nat_mul(&nat_from_u128(rate.coefficient), &nat_pow10(periods.scale));
    proof {
        lemma_pow10_positive(rate.scale as nat);
        assert(b.value() > 0) by (nonlinear_arith)
            requires
                b.value() == n.value() * pow10(rate.scale as nat),
                n.value() > 0,
                pow10(rate.scale as nat) >= 1,
        ;
        lemma_signed_mul(rate.negative, rate.coefficient as int, false, periods.denominator());
    }
    if !rate.negative {
        (false, nat_add(&b, &x), b)
    } else if nat_le(&x, &b) {
        (false, nat_sub(&b, &x), b)
    } else {
        (true, nat_sub(&x, &b), b)
    }
}

/// `amount * (±a / b)^(±e)` rounded to cents.
fn grow_in_cents(
    amount: Decimal,
    a_neg: bool,
    a: &Natural,
    b: &Natural,
    e_neg: bool,
    e: u32,
) -> (r: Result<Decimal, FormulaError>)
    requires
        amount.wf(),
        b.value() > 0,
        a_neg ==> a.value() > 0,
        e_neg ==> e > 0,
    ensures
        r == grown_in_cents(amount, signed(a_neg, a.value() as int), b.value() as int, signed(e_neg, e as int)),
        r matches Ok(d) ==> d.wf(),
{
    let ghost av = signed(a_neg, a.value() as int);
    let ghost bv = b.value() as int;
    let ghost ev = signed(e_neg, e as int);
    let a_zero = nat_is_zero(a);
    if e_neg && a_zero {
        return Err(FormulaError::ZeroGrowthFactor);
    }
    let coefficient = nat_from_u128(amount.coefficient);
    let den = nat_pow10(amount.scale);
    let (top, bottom) = if !e_neg {
        (nat_mul(&coefficient, &nat_pow(a, e)), nat_mul(&den, &nat_pow(b, e)))
    } else {
        (nat_mul(&coefficient, &nat_pow(b, e)), nat_mul(&den, &nat_pow(a, e)))
    };
    let neg = amount.negative != (a_neg && e % 2 == 1);
    proof {
        let an = amount.numerator();
        assert(an == signed(amount.negative, amount.coefficient as int));
        lemma_pow10_positive(amount.scale as nat);
        lemma_pow_signed(a_neg, a.value() as int, e as nat);
        vstd::arithmetic::power::lemma_pow_positive(bv, e as nat);
        let (x, y) = grown(amount, av, bv, ev);
        if !e_neg {
            lemma_signed_mul(amount.negative, amount.coefficient as int, a_neg && e % 2 == 1, pow(a.value() as int, e as nat));
            assert(x == signed(neg, top.value() as int));
            assert(bottom.value() > 0) by (nonlinear_arith)
                requires
                    bottom.value() == den.value() * pow(bv, e as nat),
                    den.value() >= 1,
                    pow(bv, e as nat) > 0,
            ;
            assert(y == bottom.value());
        } else {
            vstd::arithmetic::power::lemma_pow_positive(a.value() as int, e as nat);
            assert(-ev == e);
            lemma_signed_mul(amount.negative, amount.coefficient as int, false, pow(bv, e as nat));
            lemma_signed_mul(false, amount.denominator(), a_neg && e % 2 == 1, pow(a.value() as int, e as nat));
            assert(bottom.value() > 0) by (nonlinear_arith)
                requires
                    bottom.value() == den.value() * pow(a.value() as int, e as nat),
                    den.value() >= 1,
                    pow(a.value() as int, e as nat) > 0,
            ;
            assert(x == signed(neg, top.value() as int));
            assert(y == bottom.value());
        }
        assert(grown(amount, av, bv, ev) == (signed(neg, top.value() as int), bottom.value() as int));
        lemma_round_signed(neg, top.value() as int, bottom.value() as int);
    }
    let two_hundred = nat_from_u128(200);
    let two = nat_from_u128(2);
    let hundred_top = nat_mul(&top, &two_hundred);
    let numer = nat_add(&hundred_top, &bottom);
    let denom = nat_mul(&bottom, &two);
    assert(denom.value() == 2 * bottom.value()) by (nonlinear_arith)
        requires
            denom.value() == bottom.value() * two.value(),
            two.value() == 2,
    ;
    assert(numer.value() == 2 * (100 * top.value()) + bottom.value()) by (nonlinear_arith)
        requires
            hundred_top.value() == top.value() * two_hundred.value(),
            two_hundred.value() == 200,
            numer.value() == hundred_top.value() + bottom.value(),
    ;
    let (c, _) = nat_div_rem(&numer, &denom);
    proof {
        assert(numer.value() == 2 * (100 * top.value()) + bottom.value());
        assert(c.value() == (2 * (100 * top.value()) + bottom.value()) / (2 * bottom.value()));
    }
    match nat_to_u128(&c) {
        None => Err(FormulaError::OutOfRange),
        Some(cm) => {
            proof {
                lemma_decimal_of_wf(signed(neg, cm as int), 2);
            }
            Ok(Decimal::new(neg, cm, 2))
        },
    }
}

/// Whether `u^q * d <= n`.
fn root_at_most(u: &Natural, n: &Natural, d: &Natural, q: u32) -> (r: bool)
    ensures
        r == (pow(u.value() as int, q as nat) * d.value() <= n.value()),
{
    let p = nat_pow(u, q);
    nat_le(&nat_mul(&p, d), n)
}

/// The floor of the `q`-th root of `n / d`, by doubling and then halving the
/// interval that holds it. A cent amount has few bits, so this takes only a
/// few dozen powers; `num`'s Newton root (`Roots::nth_root`) starts far off
/// for a large degree and then needs a number of steps that grows with it.
fn floor_root(n: &Natural, d: &Natural, q: u32) -> (r: Natural)
    requires
        d.value() > 0,
        q >= 1,
    ensures
        pow(r.value() as int, q as nat) * d.value() <= n.value(),
        n.value() < pow(r.value() + 1int, q as nat) * d.value(),
{
    let one = nat_from_u128(1);
    let mut lo = nat_from_u128(0);
    let mut hi = nat_from_u128(1);
    proof {
        vstd::arithmetic::power::lemma0_pow(q as nat);
        assert(0 * d.value() == 0);
    }
    while root_at_most(&hi, n, d, q)
        invariant
            d.value() > 0,
            q >= 1,
            one.value() == 1,
            pow(lo.value() as int, q as nat) * d.value() <= n.value(),
            lo.value() < hi.value(),
            lo.value() <= n.value(),
        decreases n.value() + 1 - lo.value(),
    {
        proof {
            lemma_pow_at_least_base(hi.value() as int, q as nat);
            assert(hi.value() <= n.value()) by (nonlinear_arith)
                requires
                    pow(hi.value() as int, q as nat) * d.value() <= n.value(),
                    pow(hi.value() as int, q as nat) >= hi.value(),
                    d.value() >= 1,
            ;
        }
        lo = nat_add(&hi, &nat_from_u128(0));
        hi = nat_add(&hi, &hi);
    }
    loop
        invariant
            d.value() > 0,
            one.value() == 1,
            pow(lo.value() as int, q as nat) * d.value() <= n.value(),
            n.value() < pow(hi.value() as int, q as nat) * d.value(),
            lo.value() < hi.value(),
        ensures
            pow(lo.value() as int, q as nat) * d.value() <= n.value(),
            n.value() < pow(hi.value() as int, q as nat) * d.value(),
            hi.value() == lo.value() + 1,
        decreases hi.value() - lo.value(),
    {
        let gap = nat_sub(&hi, &lo);
        if nat_le(&gap, &one) {
            break;
        }
        let mid = nat_div(&nat_add(&lo, &hi), 2);
        if root_at_most(&mid, n, d, q) {
            lo = mid;
        } else {
            hi = mid;
        }
    }
    lo
}

/// `amount * (±a / b)^(±p / q)` rounded to cents, through a `q`-th root.
fn grow_by_root(
    amount: Decimal,
    a_neg: bool,
    a: &Natural,
    b: &Natural,
    e_neg: bool,
    p: u32,
    q: u32,
) -> (r: Result<Decimal, FormulaError>)
    requires
        amount.wf(),
        b.value() > 0,
        a_neg ==> a.value() > 0,
        e_neg ==> p > 0,
        q >= 1,
    ensures
        r == fraction_grown_in_cents(
            amount,
            signed(a_neg, a.value() as int),
            b.value() as int,
            signed(e_neg, p as int),
            q as nat,
        ),
        r matches Ok(d) ==> d.wf(),
{
    if a_neg {
        return Err(FormulaError::NegativeGrowthFactor);
    }
    if nat_is_zero(a) {
        if e_neg {
            return Err(FormulaError::ZeroGrowthFactor);
        }
        proof {
            lemma_decimal_of_wf(0, 2);
        }
        return Ok(Decimal::from_integer(0));
    }
    let (top, bottom) = if e_neg {
        (b, a)
    } else {
        (a, b)
    };
    let scaled = nat_mul(&nat_from_u128(200), &nat_from_u128(amount.coefficient));
    let n = nat_mul(&nat_pow(&scaled, q), &nat_pow(top, p));
    let d = nat_mul(&nat_pow(&nat_pow10(amount.scale), q), &nat_pow(bottom, p));
    proof {
        lemma_pow10_positive(amount.scale as nat);
        vstd::arithmetic::power::lemma_pow_positive(pow10(amount.scale as nat) as int, q as nat);
        vstd::arithmetic::power::lemma_pow_positive(bottom.value() as int, p as nat);
        assert(d.value() > 0) by (nonlinear_arith)
            requires
                d.value() == pow(pow10(amount.scale as nat) as int, q as nat) * pow(bottom.value() as int, p as nat),
                pow(pow10(amount.scale as nat) as int, q as nat) > 0,
                pow(bottom.value() as int, p as nat) > 0,
        ;
        assert(magnitude(amount.numerator()) == amount.coefficient);
        assert(magnitude(signed(e_neg, p as int)) == p);
    }
    let u = floor_root(&n, &d, q);
    proof {
        lemma_root_floor_unique(n.value() as int, d.value() as int, q as nat, u.value());
    }
    let one = nat_from_u128(1);
    let c = nat_div(&nat_add(&u, &one), 2);
    match nat_to_u128(&c) {
        None => Err(FormulaError::OutOfRange),
        Some(cm) => {
            proof {
                lemma_decimal_of_wf(signed(amount.negative, cm as int), 2);
            }
            Ok(Decimal::new(amount.negative, cm, 2))
        },
    }
}

/// Future value of `initial_value` after `n_years` at `annual_interest_rate`,
/// compounded `n_per_year_compounded` times a year, rounded to cents:
/// `P * (1 + r/n)^(n t)`.
pub fn compute_fv(
    initial_value: Decimal,
    annual_interest_rate: Decimal,
    n_per_year_compounded: Decimal,
    n_years: Decimal,
) -> (r: Result<Decimal, FormulaError>)
    requires
        initial_value.wf(),
        annual_interest_rate.wf(),
        n_per_year_compounded.wf(),
        n_years.wf(),
    ensures
        r == future_value(initial_value, annual_interest_rate, n_per_year_compounded, n_years),
        n_per_year_compounded.numerator() > 0 && (annual_interest_rate.numerator() == 0
            || n_years.numerator() == 0) ==> r == Ok::<Decimal, FormulaError>(
            truncated(initial_value),
        ),
        r matches Ok(d) ==> d.wf(),
{
    if n_per_year_compounded.negative || n_per_year_compounded.coefficient == 0 {
        return Err(FormulaError::NonPositivePeriods);
    }
    if annual_interest_rate.coefficient == 0 || n_years.coefficient == 0 {
        return Ok(truncate_to_two_decimal_places(initial_value));
    }
    match count_periods(n_per_year_compounded, n_years) {
        Err(e) => Err(e),
        Ok((k_neg, k, q)) => {
            let (a_neg, a, b) = growth_factor(annual_interest_rate, n_per_year_compounded);
            if q == 1 {
                grow_in_cents(initial_value, a_neg, &a, &b, k_neg, k)
            } else {
                grow_by_root(initial_value, a_neg, &a, &b, k_neg, k, q)
            }
        },
    }
}

/// Present value of `future_value` due after `n_years` at `annual_interest_rate`,
/// compounded `n_per_year_compounded` times a year, rounded to cents:
/// `F / (1 + r/n)^(n t)`.
pub fn compute_pv(
    future_value: Decimal,
    annual_interest_rate: Decimal,
    n_per_year_compounded: Decimal,
    n_years: Decimal,
) -> (r: Result<Decimal, FormulaError>)
    requires
        future_value.wf(),
        annual_interest_rate.wf(),
        n_per_year_compounded.wf(),
        n_years.wf(),
    ensures
        r == present_value(future_value, annual_interest_rate, n_per_year_compounded, n_years),
        n_per_year_compounded.numerator() > 0 && (annual_interest_rate.numerator() == 0
            || n_years.numerator() == 0) ==> r == Ok::<Decimal, FormulaError>(
            truncated(future_value),
        ),
        r matches Ok(d) ==> d.wf(),
{
    if n_per_year_compounded.negative || n_per_year_compounded.coefficient == 0 {
        return Err(FormulaError::NonPositivePeriods);
    }
    if annual_interest_rate.coefficient == 0 || n_years.coefficient == 0 {
        return Ok(truncate_to_two_decimal_places(future_value));
    }
    match count_periods(n_per_year_compounded, n_years) {
        Err(e) => Err(e),
        Ok((k_neg, k, q)) => {
            let (a_neg, a, b) = growth_factor(annual_interest_rate, n_per_year_compounded);
            let e_neg = !k_neg && k > 0;
            proof {
                assert(signed(e_neg, k as int) == -signed(k_neg, k as int));
            }
            if q == 1 {
                grow_in_cents(future_value, a_neg, &a, &b, e_neg, k)
            } else {
                grow_by_root(future_value, a_neg, &a, &b, e_neg, k, q)
            }
        },
    }
}

/// A rounded amount is a well-formed decimal with at most two places.
pub proof fn lemma_truncated_shape(x: Decimal)
    requires
        x.wf(),
    ensures
        truncated(x).wf(),
        truncated(x).scale <= 2,
        reduced(magnitude(cents_of(x)), 2).0 <= u128::MAX,
        x.scale > 2 ==> -(u128::MAX as int) <= cents_of(x) <= u128::MAX,
{
    if x.scale <= 2 {
        lemma_truncated_fixed(x);
    } else {
        let k = (x.scale - 2) as nat;
        let d = pow10(k);
        lemma_pow10_monotonic(1, k);
        reveal_with_fuel(pow10, 2);
        lemma_pow10_adds(2, k);
        lemma_pow10_two();
        lemma_round_div_scale(x.numerator(), d as int, 100);
        lemma_round_half_up(x.coefficient as nat, d);
        let c = x.coefficient as int;
        vstd::arithmetic::div_mod::lemma_fundamental_div_mod(c, d as int);
        assert(c / (d as int) < u128::MAX) by (nonlinear_arith)
            requires
                d >= 10,
                d * (c / (d as int)) + c % (d as int) == c,
                c % (d as int) >= 0,
                c / (d as int) >= 0,
                c <= u128::MAX,
        ;
        lemma_decimal_of_wf(cents_of(x), 2);
        lemma_reduced_bounds(magnitude(cents_of(x)), 2);
    }
}

} // verus!
