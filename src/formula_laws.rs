//! What holds of the value formulas across calls: rounding twice, growth over
//! no time or at no rate, and discounting a future value back.

use crate::decimal::{decimal_of, lemma_decimal_of_value, lemma_pow10_positive, lemma_pow10_two, Decimal};
use crate::formula::{
    cents_of, future_value, growth_denominator, growth_numerator, grown, lemma_truncated_fixed,
    lemma_truncated_shape, magnitude, period_count, present_value, root_floor, round_div, signed,
    truncated, FormulaError,
};
use crate::formula_lemmas::{
    lemma_lowest_terms_positive, lemma_pow_base_le, lemma_root_floor_brackets, lemma_round_div_error,
    lemma_round_div_scale, lemma_two_roots, lemma_two_roundings,
};
use vstd::arithmetic::power::pow;
use vstd::prelude::*;

verus! {

/// Rounding to cents a second time changes nothing.
pub proof fn truncation_is_idempotent(x: Decimal)
    requires
        x.wf(),
    ensures
        truncated(truncated(x)) == truncated(x),
{
    lemma_truncated_shape(x);
    lemma_truncated_fixed(truncated(x));
}

/// Whether `x` and `y` differ by at most one cent.
pub open spec fn within_a_cent(x: Decimal, y: Decimal) -> bool {
    let d = 100 * (x.numerator() * y.denominator() - y.numerator() * x.denominator());
    let bound = x.denominator() * y.denominator();
    -bound <= d <= bound
}

/// Over zero years the future value is the principal rounded to cents,
/// whatever the rate.
pub proof fn future_value_over_no_time(principal: Decimal, rate: Decimal, periods: Decimal, years: Decimal)
    requires
        principal.wf(),
        rate.wf(),
        periods.wf(),
        years.wf(),
        periods.numerator() > 0,
        years.numerator() == 0,
    ensures
        future_value(principal, rate, periods, years) == Ok::<Decimal, FormulaError>(truncated(principal)),
{
}

/// At a zero rate the future value is the principal rounded to cents, over any
/// number of years.
pub proof fn future_value_at_zero_rate(principal: Decimal, rate: Decimal, periods: Decimal, years: Decimal)
    requires
        principal.wf(),
        rate.wf(),
        periods.wf(),
        years.wf(),
        periods.numerator() > 0,
        rate.numerator() == 0,
    ensures
        future_value(principal, rate, periods, years) == Ok::<Decimal, FormulaError>(truncated(principal)),
{
}

/// An amount and its rounding to cents are within a cent of each other.
proof fn lemma_truncated_within_a_cent(x: Decimal)
    requires
        x.wf(),
    ensures
        within_a_cent(truncated(x), x),
{
    lemma_truncated_shape(x);
    if x.scale <= 2 {
        lemma_truncated_fixed(x);
    } else {
        let t = truncated(x);
        let c = cents_of(x);
        let xn = x.numerator();
        let xd = x.denominator();
        let tn = t.numerator();
        let td = t.denominator();
        lemma_pow10_positive(x.scale as nat);
        lemma_pow10_positive(t.scale as nat);
        lemma_pow10_two();
        lemma_decimal_of_value(c, 2);
        lemma_round_div_error(100 * xn, xd);
        assert(100 * (tn * xd - xn * td) == td * (c * xd - 100 * xn)) by (nonlinear_arith)
            requires
                tn * 100 == c * td,
        ;
        assert(-(td * xd) <= td * (c * xd - 100 * xn) <= td * xd) by (nonlinear_arith)
            requires
                -xd <= 2 * xd * c - 2 * (100 * xn) <= xd,
                td >= 1,
                xd >= 1,
        ;
    }
}

/// The round trip over a whole number of periods.
proof fn lemma_round_trip_whole(
    principal: Decimal,
    rate: Decimal,
    periods: Decimal,
    years: Decimal,
)
    requires
        principal.wf(),
        rate.wf(),
        periods.wf(),
        years.wf(),
        principal.numerator() > 0,
        rate.numerator() > 0,
        periods.numerator() > 0,
        years.numerator() > 0,
        period_count(periods, years) is Ok,
        period_count(periods, years)->Ok_0.1 == 1,
        future_value(principal, rate, periods, years) is Ok,
        present_value(future_value(principal, rate, periods, years)->Ok_0, rate, periods, years) is Ok,
    ensures
        within_a_cent(
            present_value(future_value(principal, rate, periods, years)->Ok_0, rate, periods, years)->Ok_0,
            principal,
        ),
{
    let fv = future_value(principal, rate, periods, years)->Ok_0;
    let pv = present_value(fv, rate, periods, years)->Ok_0;
    let k = period_count(periods, years)->Ok_0.0;
    let p = periods.numerator() * years.numerator();
    let q = periods.denominator() * years.denominator();
    lemma_pow10_positive(periods.scale as nat);
    lemma_pow10_positive(years.scale as nat);
    lemma_pow10_positive(rate.scale as nat);
    lemma_pow10_positive(principal.scale as nat);
    assert(p > 0 && q > 0) by (nonlinear_arith)
        requires
            p == periods.numerator() * years.numerator(),
            q == periods.denominator() * years.denominator(),
            periods.numerator() > 0,
            years.numerator() > 0,
            periods.denominator() >= 1,
            years.denominator() >= 1,
    ;
    assert(k >= 0);
    let kn = k as nat;
    let a = growth_numerator(rate, periods);
    let b = growth_denominator(rate, periods);
    assert(0 < b <= a) by (nonlinear_arith)
        requires
            a == b + rate.numerator() * periods.denominator(),
            b == periods.numerator() * rate.denominator(),
            rate.numerator() >= 0,
            periods.denominator() >= 1,
            periods.numerator() > 0,
            rate.denominator() >= 1,
    ;
    lemma_pow_base_le(b, a, kn);
    vstd::arithmetic::power::lemma_pow_positive(b, kn);
    let big_a = pow(a, kn);
    let big_b = pow(b, kn);
    let pn = principal.numerator();
    let pd = principal.denominator();
    // The future value in cents.
    assert(pd * big_b > 0) by (nonlinear_arith)
        requires
            pd >= 1,
            big_b > 0,
    ;
    let f = round_div(100 * (pn * big_a), pd * big_b);
    assert(fv == decimal_of(f, 2));
    lemma_decimal_of_value(f, 2);
    lemma_pow10_two();
    lemma_round_div_error(100 * (pn * big_a), pd * big_b);
    // The present value in cents.
    let fn_ = fv.numerator();
    let fd = fv.denominator();
    lemma_pow10_positive(fv.scale as nat);
    if k == 0 {
        vstd::arithmetic::power::lemma_pow0(a);
        vstd::arithmetic::power::lemma_pow0(b);
    }
    assert(fd * big_a > 0) by (nonlinear_arith)
        requires
            fd >= 1,
            big_a > 0,
    ;
    assert(grown(fv, a, b, -k) == (fn_ * big_b, fd * big_a));
    assert(100 * (fn_ * big_b) == fd * (f * big_b)) by (nonlinear_arith)
        requires
            fn_ * 100 == f * fd,
    ;
    lemma_round_div_scale(f * big_b, big_a, fd);
    let v = round_div(f * big_b, big_a);
    assert(pv == decimal_of(v, 2));
    lemma_round_div_error(f * big_b, big_a);
    lemma_decimal_of_value(v, 2);
    // Both roundings together stay within a cent.
    let x = 2 * big_a * v - 2 * (f * big_b);
    let y = 2 * (pd * big_b) * f - 2 * (100 * (pn * big_a));
    lemma_two_roundings(big_a, big_b, v, f, pd, pn);
    assert(-(pd * big_a) <= pd * x <= pd * big_a) by (nonlinear_arith)
        requires
            -big_a <= x <= big_a,
            pd >= 1,
    ;
    assert(pd * big_b <= pd * big_a) by (nonlinear_arith)
        requires
            big_b <= big_a,
            pd >= 1,
    ;
    let z = v * pd - 100 * pn;
    assert(-pd <= z <= pd) by (nonlinear_arith)
        requires
            2 * big_a * z == pd * x + y,
            -(pd * big_a) <= pd * x <= pd * big_a,
            -(pd * big_b) <= y <= pd * big_b,
            pd * big_b <= pd * big_a,
            big_a > 0,
    ;
    let vn = pv.numerator();
    let vd = pv.denominator();
    lemma_pow10_positive(pv.scale as nat);
    assert(100 * (vn * pd - pn * vd) == vd * z) by (nonlinear_arith)
        requires
            vn * 100 == v * vd,
            z == v * pd - 100 * pn,
    ;
    assert(-(vd * pd) <= vd * z <= vd * pd) by (nonlinear_arith)
        requires
            -pd <= z <= pd,
            vd >= 1,
    ;
}

/// The round trip over a fractional number of periods.
proof fn lemma_round_trip_root(principal: Decimal, rate: Decimal, periods: Decimal, years: Decimal)
    requires
        principal.wf(),
        rate.wf(),
        periods.wf(),
        years.wf(),
        principal.numerator() > 0,
        rate.numerator() > 0,
        periods.numerator() > 0,
        years.numerator() > 0,
        period_count(periods, years) is Ok,
        period_count(periods, years)->Ok_0.1 != 1,
        future_value(principal, rate, periods, years) is Ok,
        present_value(future_value(principal, rate, periods, years)->Ok_0, rate, periods, years) is Ok,
    ensures
        within_a_cent(
            present_value(future_value(principal, rate, periods, years)->Ok_0, rate, periods, years)->Ok_0,
            principal,
        ),
{
    let fv = future_value(principal, rate, periods, years)->Ok_0;
    let pv = present_value(fv, rate, periods, years)->Ok_0;
    let k = period_count(periods, years)->Ok_0.0;
    let q = period_count(periods, years)->Ok_0.1;
    let p0 = periods.numerator() * years.numerator();
    let q0 = periods.denominator() * years.denominator();
    lemma_pow10_positive(periods.scale as nat);
    lemma_pow10_positive(years.scale as nat);
    lemma_pow10_positive(rate.scale as nat);
    lemma_pow10_positive(principal.scale as nat);
    assert(p0 > 0 && q0 >= 1) by (nonlinear_arith)
        requires
            p0 == periods.numerator() * years.numerator(),
            q0 == periods.denominator() * years.denominator(),
            periods.numerator() > 0,
            years.numerator() > 0,
            periods.denominator() >= 1,
            years.denominator() >= 1,
    ;
    lemma_lowest_terms_positive(magnitude(p0), q0 as nat);
    assert(k >= 0 && q >= 1);
    let m = k as nat;
    let a = growth_numerator(rate, periods);
    let b = growth_denominator(rate, periods);
    assert(0 < b <= a) by (nonlinear_arith)
        requires
            a == b + rate.numerator() * periods.denominator(),
            b == periods.numerator() * rate.denominator(),
            rate.numerator() >= 0,
            periods.denominator() >= 1,
            periods.numerator() > 0,
            rate.denominator() >= 1,
    ;
    lemma_pow_base_le(b, a, m);
    vstd::arithmetic::power::lemma_pow_positive(b, m);
    let big_a = pow(a, m);
    let big_b = pow(b, m);
    let pn = principal.numerator();
    let pd = principal.denominator();
    // Forth: the future value in cents.
    let y = 200 * pn;
    assert(magnitude(pn) == pn);
    vstd::arithmetic::power::lemma_pow_positive(pd, q);
    assert(pow(pd, q) * big_b > 0) by (nonlinear_arith)
        requires
            pow(pd, q) > 0,
            big_b > 0,
    ;
    let n1 = pow(y, q) * big_a;
    let d1 = pow(pd, q) * big_b;
    lemma_pow_base_le(0, y, q);
    vstd::arithmetic::power::lemma0_pow(q);
    assert(n1 >= 0) by (nonlinear_arith)
        requires
            n1 == pow(y, q) * big_a,
            pow(y, q) >= 0,
            big_a > 0,
    ;
    lemma_root_floor_brackets(n1, d1, q);
    let u1 = root_floor(n1, d1, q);
    let f = (u1 + 1) / 2;
    assert(fv == decimal_of(signed(false, f), 2));
    lemma_decimal_of_value(f, 2);
    lemma_pow10_two();
    let fn_ = fv.numerator();
    let fd = fv.denominator();
    lemma_pow10_positive(fv.scale as nat);
    assert(fn_ >= 0);
    assert(magnitude(fn_) == fn_);
    // Back: the present value in cents.
    let g = 2 * f;
    assert(200 * fn_ == g * fd) by (nonlinear_arith)
        requires
            fn_ * 100 == f * fd,
            g == 2 * f,
    ;
    vstd::arithmetic::power::lemma_pow_distributes(g, fd, q);
    vstd::arithmetic::power::lemma_pow_positive(fd, q);
    if k == 0 {
        vstd::arithmetic::power::lemma_pow0(a);
        vstd::arithmetic::power::lemma_pow0(b);
    }
    let n2 = pow(200 * magnitude(fn_) as int, q) * big_b;
    let d2 = pow(fd, q) * big_a;
    assert(d2 > 0) by (nonlinear_arith)
        requires
            d2 == pow(fd, q) * big_a,
            pow(fd, q) > 0,
            big_a > 0,
    ;
    lemma_pow_base_le(0, g, q);
    assert(n2 >= 0) by (nonlinear_arith)
        requires
            n2 == pow(g, q) * pow(fd, q) * big_b,
            pow(g, q) >= 0,
            pow(fd, q) > 0,
            big_b > 0,
    ;
    lemma_root_floor_brackets(n2, d2, q);
    let u2 = root_floor(n2, d2, q);
    let v = (u2 + 1) / 2;
    assert(pv == decimal_of(signed(false, v), 2));
    let pf = pow(fd, q);
    assert(pow(u2, q) * big_a <= pow(g, q) * big_b) by (nonlinear_arith)
        requires
            pow(u2, q) * (pf * big_a) <= pow(g, q) * pf * big_b,
            pf > 0,
    ;
    assert(pow(g, q) * big_b < pow(u2 + 1, q) * big_a) by (nonlinear_arith)
        requires
            pow(g, q) * pf * big_b < pow(u2 + 1, q) * (pf * big_a),
            pf > 0,
    ;
    assert(pow(u1, q) * pow(pd, q) * big_b <= pow(y, q) * big_a) by (nonlinear_arith)
        requires
            pow(u1, q) * (pow(pd, q) * big_b) <= n1,
            n1 == pow(y, q) * big_a,
    ;
    assert(pow(y, q) * big_a < pow(u1 + 1, q) * pow(pd, q) * big_b) by (nonlinear_arith)
        requires
            n1 < pow(u1 + 1, q) * (pow(pd, q) * big_b),
            n1 == pow(y, q) * big_a,
    ;
    lemma_two_roots(y, pd, big_a, big_b, q, u1, u2);
    // The present value against the principal.
    let vn = pv.numerator();
    let vd = pv.denominator();
    lemma_decimal_of_value(v, 2);
    lemma_pow10_positive(pv.scale as nat);
    let z = v * pd - 100 * pn;
    assert(-pd <= z <= pd) by (nonlinear_arith)
        requires
            -2 * pd <= 2 * v * pd - y <= 2 * pd,
            y == 200 * pn,
            z == v * pd - 100 * pn,
    ;
    assert(100 * (vn * pd - pn * vd) == vd * z) by (nonlinear_arith)
        requires
            vn * 100 == v * vd,
            z == v * pd - 100 * pn,
    ;
    assert(-(vd * pd) <= vd * z <= vd * pd) by (nonlinear_arith)
        requires
            -pd <= z <= pd,
            vd >= 1,
    ;
}

/// Discounting a future value back over the same time gives the principal to
/// within one cent, at a rate that is not negative, whenever both values can be
/// computed.
pub proof fn present_value_undoes_future_value(
    principal: Decimal,
    rate: Decimal,
    periods: Decimal,
    years: Decimal,
)
    requires
        principal.wf(),
        rate.wf(),
        periods.wf(),
        years.wf(),
        principal.numerator() > 0,
        rate.numerator() >= 0,
        periods.numerator() > 0,
        years.numerator() > 0,
        future_value(principal, rate, periods, years) is Ok,
        present_value(future_value(principal, rate, periods, years)->Ok_0, rate, periods, years) is Ok,
    ensures
        within_a_cent(
            present_value(future_value(principal, rate, periods, years)->Ok_0, rate, periods, years)->Ok_0,
            principal,
        ),
{
    if rate.numerator() == 0 {
        lemma_truncated_within_a_cent(principal);
        lemma_truncated_shape(principal);
        lemma_truncated_fixed(truncated(principal));
    } else if period_count(periods, years)->Ok_0.1 == 1 {
        lemma_round_trip_whole(principal, rate, periods, years);
    } else {
        lemma_round_trip_root(principal, rate, periods, years);
    }
}

} // verus!
