//! Integer facts behind the rounding, powers and roots of the value formulas.

use crate::formula::{lowest_terms, root_floor, round_div, signed};
use vstd::arithmetic::power::pow;
use vstd::prelude::*;

verus! {

/// `(2c + d) / 2d` is the floor quotient, plus one when the remainder is at least half of `d`.
pub(crate) proof fn lemma_round_half_up(c: nat, d: nat)
    requires
        d > 0,
    ensures
        (2 * c + d) / (2 * d) == c / d + (if 2 * (c % d) >= d { 1int } else { 0int }),
{
    let ci = c as int;
    let di = d as int;
    let q = ci / di;
    let r = ci % di;
    vstd::arithmetic::div_mod::lemma_fundamental_div_mod(ci, di);
    assert(0 <= r < di);
    if 2 * r >= di {
        assert(2 * ci + di == (q + 1) * (2 * di) + (2 * r - di)) by (nonlinear_arith)
            requires
                ci == di * q + r,
        ;
        vstd::arithmetic::div_mod::lemma_fundamental_div_mod_converse(
            2 * ci + di,
            2 * di,
            q + 1,
            2 * r - di,
        );
    } else {
        assert(2 * ci + di == q * (2 * di) + (2 * r + di)) by (nonlinear_arith)
            requires
                ci == di * q + r,
        ;
        vstd::arithmetic::div_mod::lemma_fundamental_div_mod_converse(
            2 * ci + di,
            2 * di,
            q,
            2 * r + di,
        );
    }
}

/// Scaling both sides of a rounded division by the same factor changes nothing.
pub(crate) proof fn lemma_round_div_scale(n: int, d: int, k: int)
    requires
        d > 0,
        k > 0,
    ensures
        round_div(k * n, k * d) == round_div(n, d),
{
    let m: int = if n >= 0 { n } else { -n };
    assert(2 * (k * m) + k * d == k * (2 * m + d)) by (nonlinear_arith);
    assert(2 * (k * d) == k * (2 * d)) by (nonlinear_arith);
    vstd::arithmetic::div_mod::lemma_div_multiples_vanish_quotient(k, 2 * m + d, 2 * d);
    if n < 0 {
        assert(-(k * n) == k * m) by (nonlinear_arith)
            requires
                m == -n,
        ;
        assert(k * n < 0) by (nonlinear_arith)
            requires
                n < 0,
                k > 0,
        ;
    } else {
        assert(k * n >= 0) by (nonlinear_arith)
            requires
                n >= 0,
                k > 0,
        ;
    }
}

/// An exact quotient is its own rounding.
pub(crate) proof fn lemma_round_div_exact(q: int, d: int)
    requires
        d > 0,
    ensures
        round_div(q * d, d) == q,
{
    let m: int = if q >= 0 { q } else { -q };
    assert(2 * (m * d) + d == m * (2 * d) + d) by (nonlinear_arith);
    vstd::arithmetic::div_mod::lemma_fundamental_div_mod_converse(2 * (m * d) + d, 2 * d, m, d);
    if q < 0 {
        assert(q * d < 0 && -(q * d) == m * d) by (nonlinear_arith)
            requires
                q < 0,
                d > 0,
                m == -q,
        ;
    } else {
        assert(q * d >= 0) by (nonlinear_arith)
            requires
                q >= 0,
                d > 0,
        ;
    }
}

pub(crate) proof fn lemma_signed_mul(p: bool, u: int, q: bool, v: int)
    ensures
        signed(p, u) * signed(q, v) == signed(p != q, u * v),
{
    if p && q {
        assert((-u) * (-v) == u * v) by (nonlinear_arith);
    } else if p {
        assert((-u) * v == -(u * v)) by (nonlinear_arith);
    } else if q {
        assert(u * (-v) == -(u * v)) by (nonlinear_arith);
    }
}

pub(crate) proof fn lemma_pow_signed(neg: bool, m: int, e: nat)
    ensures
        pow(signed(neg, m), e) == signed(neg && e % 2 == 1, pow(m, e)),
    decreases e,
{
    reveal(pow);
    if e > 0 {
        let e1 = (e - 1) as nat;
        lemma_pow_signed(neg, m, e1);
        lemma_signed_mul(neg, m, neg && e1 % 2 == 1, pow(m, e1));
    }
}

/// `round_div(100 * ±t, y)` is `±((200 t + y) / 2y)`.
pub(crate) proof fn lemma_round_signed(neg: bool, t: int, y: int)
    requires
        t >= 0,
        y > 0,
    ensures
        round_div(100 * signed(neg, t), y) == signed(neg, (2 * (100 * t) + y) / (2 * y)),
{
    if t == 0 {
        vstd::arithmetic::div_mod::lemma_fundamental_div_mod_converse(y, 2 * y, 0, y);
    }
}

/// Powers keep the order of bases that are not negative.
pub(crate) proof fn lemma_pow_base_le(b: int, a: int, k: nat)
    requires
        0 <= b <= a,
    ensures
        0 <= pow(b, k) <= pow(a, k),
    decreases k,
{
    reveal(pow);
    if k > 0 {
        let k1 = (k - 1) as nat;
        lemma_pow_base_le(b, a, k1);
        assert(0 <= b * pow(b, k1) <= a * pow(a, k1)) by (nonlinear_arith)
            requires
                0 <= b <= a,
                0 <= pow(b, k1) <= pow(a, k1),
        ;
    }
}

/// A positive power keeps the strict order of bases that are not negative.
pub(crate) proof fn lemma_pow_base_lt(b: int, a: int, k: nat)
    requires
        0 <= b < a,
        k >= 1,
    ensures
        pow(b, k) < pow(a, k),
    decreases k,
{
    reveal(pow);
    let k1 = (k - 1) as nat;
    lemma_pow_base_le(b, a, k1);
    vstd::arithmetic::power::lemma_pow_positive(a, k1);
    assert(b * pow(b, k1) < a * pow(a, k1)) by (nonlinear_arith)
        requires
            0 <= b < a,
            0 <= pow(b, k1) <= pow(a, k1),
            pow(a, k1) > 0,
    ;
}

/// The floor of a root is the one `u` that brackets it.
pub(crate) proof fn lemma_root_floor_unique(n: int, d: int, q: nat, u: nat)
    requires
        d > 0,
        q >= 1,
        pow(u as int, q) * d <= n,
        n < pow(u + 1int, q) * d,
    ensures
        root_floor(n, d, q) == u,
{
    let w = choose|w: nat| #[trigger] pow(w as int, q) * d <= n && n < pow(w + 1int, q) * d;
    assert(pow(w as int, q) * d <= n && n < pow(w + 1int, q) * d);
    if w < u {
        lemma_pow_base_le((w + 1) as int, u as int, q);
        assert(pow(w + 1int, q) * d <= pow(u as int, q) * d) by (nonlinear_arith)
            requires
                pow(w + 1int, q) <= pow(u as int, q),
                d > 0,
        ;
    } else if w > u {
        lemma_pow_base_le((u + 1) as int, w as int, q);
        assert(pow(u + 1int, q) * d <= pow(w as int, q) * d) by (nonlinear_arith)
            requires
                pow(u + 1int, q) <= pow(w as int, q),
                d > 0,
        ;
    }
}

/// Rounding moves a quotient by at most one half: `|2 y round_div(n, y) - 2 n| <= y`.
pub(crate) proof fn lemma_round_div_error(n: int, y: int)
    requires
        y > 0,
    ensures
        -y <= 2 * y * round_div(n, y) - 2 * n <= y,
{
    if n >= 0 {
        let q = (2 * n + y) / (2 * y);
        vstd::arithmetic::div_mod::lemma_fundamental_div_mod(2 * n + y, 2 * y);
        assert(-y <= 2 * y * q - 2 * n <= y) by (nonlinear_arith)
            requires
                2 * n + y == (2 * y) * q + (2 * n + y) % (2 * y),
                0 <= (2 * n + y) % (2 * y) < 2 * y,
        ;
    } else {
        let q = (2 * -n + y) / (2 * y);
        vstd::arithmetic::div_mod::lemma_fundamental_div_mod(2 * -n + y, 2 * y);
        assert(-y <= 2 * y * (-q) - 2 * n <= y) by (nonlinear_arith)
            requires
                2 * -n + y == (2 * y) * q + (2 * -n + y) % (2 * y),
                0 <= (2 * -n + y) % (2 * y) < 2 * y,
        ;
    }
}

pub(crate) proof fn lemma_two_roundings(a: int, b: int, v: int, f: int, pd: int, pn: int)
    ensures
        2 * a * (v * pd - 100 * pn) == pd * (2 * a * v - 2 * (f * b)) + (2 * (pd * b) * f - 2 * (
        100 * (pn * a))),
{
    assert(pd * (2 * a * v - 2 * (f * b)) == 2 * a * v * pd - 2 * (pd * (f * b))) by (nonlinear_arith);
    assert(pd * (f * b) == (pd * b) * f) by (nonlinear_arith);
    assert(2 * (pd * b) * f == 2 * ((pd * b) * f)) by (nonlinear_arith);
    assert(2 * a * (v * pd - 100 * pn) == 2 * a * v * pd - 2 * (100 * (pn * a))) by (nonlinear_arith);
}

/// A power is at least its base, for bases that are not negative.
pub(crate) proof fn lemma_pow_at_least_base(u: int, q: nat)
    requires
        u >= 0,
        q >= 1,
    ensures
        pow(u, q) >= u,
{
    vstd::arithmetic::power::lemma_pow1(u);
    if u >= 1 {
        vstd::arithmetic::power::lemma_pow_increases(u as nat, 1, q);
    } else {
        lemma_pow_base_le(0, u, q);
    }
}

/// Searching upwards from `u` finds the floor of the `q`-th root of `n / d`.
pub(crate) proof fn lemma_root_search(n: int, d: int, q: nat, u: nat) -> (w: nat)
    requires
        d > 0,
        q >= 1,
        pow(u as int, q) * d <= n,
    ensures
        pow(w as int, q) * d <= n < pow(w + 1int, q) * d,
    decreases n - u,
{
    if pow(u + 1int, q) * d <= n {
        lemma_pow_at_least_base(u + 1int, q);
        assert(u + 1 <= n) by (nonlinear_arith)
            requires
                pow(u + 1int, q) * d <= n,
                pow(u + 1int, q) >= u + 1,
                d >= 1,
        ;
        lemma_root_search(n, d, q, (u + 1) as nat)
    } else {
        u
    }
}

/// The floor of a root brackets it.
pub(crate) proof fn lemma_root_floor_brackets(n: int, d: int, q: nat)
    requires
        n >= 0,
        d > 0,
        q >= 1,
    ensures
        root_floor(n, d, q) >= 0,
        pow(root_floor(n, d, q), q) * d <= n < pow(root_floor(n, d, q) + 1, q) * d,
{
    lemma_pow_base_le(0, 0, q);
    vstd::arithmetic::power::lemma0_pow(q);
    let w = lemma_root_search(n, d, q, 0);
    lemma_root_floor_unique(n, d, q, w);
}

/// When `(x s)^q / y^q` is at most `A / B >= 1`, so is `((x + 1) s)^q / (y + s)^q`.
pub(crate) proof fn lemma_ratio_step(x: int, y: int, s: int, big_a: int, big_b: int, q: nat)
    requires
        x >= 0,
        y >= 0,
        s > 0,
        big_a >= big_b > 0,
        q >= 1,
        pow(x * s, q) * big_b <= pow(y, q) * big_a,
    ensures
        pow((x + 1) * s, q) * big_b <= pow(y + s, q) * big_a,
{
    assert(x * s >= 0 && (x + 1) * s >= 0 && (x + 1) * s == x * s + s) by (nonlinear_arith)
        requires
            x >= 0,
            s > 0,
    ;
    if x * s <= y {
        lemma_pow_base_le((x + 1) * s, y + s, q);
        lemma_pow_base_le(0, y + s, q);
        vstd::arithmetic::power::lemma0_pow(q);
        assert(pow((x + 1) * s, q) * big_b <= pow(y + s, q) * big_a) by (nonlinear_arith)
            requires
                pow((x + 1) * s, q) <= pow(y + s, q),
                pow(y + s, q) >= 0,
                big_a >= big_b > 0,
        ;
    } else {
        if y == 0 {
            vstd::arithmetic::power::lemma0_pow(q);
            vstd::arithmetic::power::lemma_pow_positive(x * s, q);
            assert(false) by (nonlinear_arith)
                requires
                    pow(x * s, q) > 0,
                    big_b > 0,
                    pow(x * s, q) * big_b <= 0 * big_a,
            ;
        }
        assert((x + 1) * s * y <= (y + s) * (x * s)) by (nonlinear_arith)
            requires
                y < x * s,
                s > 0,
                y >= 0,
        ;
        assert((x + 1) * s * y >= 0 && (y + s) * (x * s) >= 0) by (nonlinear_arith)
            requires
                x >= 0,
                s > 0,
                y >= 0,
        ;
        lemma_pow_base_le((x + 1) * s * y, (y + s) * (x * s), q);
        vstd::arithmetic::power::lemma_pow_distributes((x + 1) * s, y, q);
        vstd::arithmetic::power::lemma_pow_distributes(y + s, x * s, q);
        vstd::arithmetic::power::lemma_pow_positive(y, q);
        lemma_pow_base_le(0, y + s, q);
        lemma_pow_base_le(0, (x + 1) * s, q);
        vstd::arithmetic::power::lemma0_pow(q);
        let pxs = pow(x * s, q);
        let py = pow(y, q);
        let pys = pow(y + s, q);
        let px1 = pow((x + 1) * s, q);
        assert(px1 * py * big_b <= pys * pxs * big_b) by (nonlinear_arith)
            requires
                px1 * py <= pys * pxs,
                big_b > 0,
        ;
        assert(pys * pxs * big_b <= pys * py * big_a) by (nonlinear_arith)
            requires
                pxs * big_b <= py * big_a,
                pys >= 0,
        ;
        assert(px1 * big_b <= pys * big_a) by (nonlinear_arith)
            requires
                px1 * py * big_b <= pys * py * big_a,
                py > 0,
        ;
    }
}

/// Rounding to the nearest cent through a root twice, forth and back by a
/// factor of at least one, lands within a cent: with `y` twice the amount in
/// cents over `s`, `u1` the floor of `2 y / s` grown by the factor and `u2` the
/// floor of twice the rounded result shrunk back, the final cents are within
/// one cent of `y / 2s`.
pub(crate) proof fn lemma_two_roots(y: int, s: int, big_a: int, big_b: int, q: nat, u1: int, u2: int)
    requires
        y >= 0,
        s > 0,
        big_a >= big_b > 0,
        q >= 1,
        u1 >= 0,
        u2 >= 0,
        pow(u1, q) * pow(s, q) * big_b <= pow(y, q) * big_a,
        pow(y, q) * big_a < pow(u1 + 1, q) * pow(s, q) * big_b,
        pow(u2, q) * big_a <= pow(2 * ((u1 + 1) / 2), q) * big_b,
        pow(2 * ((u1 + 1) / 2), q) * big_b < pow(u2 + 1, q) * big_a,
    ensures
        -2 * s <= 2 * ((u2 + 1) / 2) * s - y <= 2 * s,
{
    let g = 2 * ((u1 + 1) / 2);
    let v = (u2 + 1) / 2;
    assert(u1 <= g <= u1 + 1);
    assert(u2 <= 2 * v <= u2 + 1);
    vstd::arithmetic::power::lemma_pow_positive(s, q);
    let ps = pow(s, q);
    // At most a cent above.
    if g == 0 {
        vstd::arithmetic::power::lemma0_pow(q);
        if u2 >= 1 {
            vstd::arithmetic::power::lemma_pow_positive(u2, q);
            assert(false) by (nonlinear_arith)
                requires
                    pow(u2, q) > 0,
                    big_a > 0,
                    pow(u2, q) * big_a <= 0 * big_b,
            ;
        }
        assert(v == 0);
        assert(2 * v * s - y <= 2 * s);
    } else {
        let x = g - 1;
        lemma_pow_base_le(x, u1, q);
        vstd::arithmetic::power::lemma_pow_distributes(x, s, q);
        assert(pow(x * s, q) * big_b <= pow(y, q) * big_a) by (nonlinear_arith)
            requires
                pow(x * s, q) == pow(x, q) * ps,
                pow(x, q) <= pow(u1, q),
                ps > 0,
                big_b > 0,
                pow(u1, q) * ps * big_b <= pow(y, q) * big_a,
        ;
        lemma_ratio_step(x, y, s, big_a, big_b, q);
        vstd::arithmetic::power::lemma_pow_distributes(u2, s, q);
        vstd::arithmetic::power::lemma_pow_distributes(g, s, q);
        assert(pow(u2 * s, q) * big_a <= pow(y + s, q) * big_a) by (nonlinear_arith)
            requires
                pow(u2 * s, q) == pow(u2, q) * ps,
                pow(g * s, q) == pow(g, q) * ps,
                pow(u2, q) * big_a <= pow(g, q) * big_b,
                pow((x + 1) * s, q) * big_b <= pow(y + s, q) * big_a,
                x + 1 == g,
                ps > 0,
        ;
        assert(pow(u2 * s, q) <= pow(y + s, q)) by (nonlinear_arith)
            requires
                pow(u2 * s, q) * big_a <= pow(y + s, q) * big_a,
                big_a > 0,
        ;
        assert(u2 * s >= 0) by (nonlinear_arith)
            requires
                u2 >= 0,
                s > 0,
        ;
        if u2 * s > y + s {
            lemma_pow_base_lt(y + s, u2 * s, q);
        }
        assert(2 * v * s <= (u2 + 1) * s) by (nonlinear_arith)
            requires
                2 * v <= u2 + 1,
                s > 0,
        ;
        assert((u2 + 1) * s == u2 * s + s) by (nonlinear_arith);
    }
    // At most a cent below.
    assert(pow(g * s, q) * big_b <= pow((u2 + 1) * s, q) * big_a) by {
        vstd::arithmetic::power::lemma_pow_distributes(g, s, q);
        vstd::arithmetic::power::lemma_pow_distributes(u2 + 1, s, q);
        assert(pow(g * s, q) * big_b <= pow((u2 + 1) * s, q) * big_a) by (nonlinear_arith)
            requires
                pow(g * s, q) == pow(g, q) * ps,
                pow((u2 + 1) * s, q) == pow(u2 + 1, q) * ps,
                pow(g, q) * big_b < pow(u2 + 1, q) * big_a,
                ps > 0,
        ;
    }
    assert((u2 + 1) * s >= 0) by (nonlinear_arith)
        requires
            u2 >= 0,
            s > 0,
    ;
    lemma_ratio_step(g, (u2 + 1) * s, s, big_a, big_b, q);
    assert((u2 + 1) * s + s == (u2 + 2) * s) by (nonlinear_arith);
    lemma_pow_base_le(u1 + 1, g + 1, q);
    vstd::arithmetic::power::lemma_pow_distributes(g + 1, s, q);
    assert(pow(y, q) * big_a < pow((u2 + 2) * s, q) * big_a) by (nonlinear_arith)
        requires
            pow(y, q) * big_a < pow(u1 + 1, q) * ps * big_b,
            pow(u1 + 1, q) <= pow(g + 1, q),
            pow((g + 1) * s, q) == pow(g + 1, q) * ps,
            pow((g + 1) * s, q) * big_b <= pow((u2 + 2) * s, q) * big_a,
            ps > 0,
            big_b > 0,
    ;
    assert(pow(y, q) < pow((u2 + 2) * s, q)) by (nonlinear_arith)
        requires
            pow(y, q) * big_a < pow((u2 + 2) * s, q) * big_a,
            big_a > 0,
    ;
    if y >= (u2 + 2) * s {
        assert((u2 + 2) * s >= 0) by (nonlinear_arith)
            requires
                u2 >= 0,
                s > 0,
        ;
        lemma_pow_base_le((u2 + 2) * s, y, q);
    }
    assert(2 * v * s >= u2 * s) by (nonlinear_arith)
        requires
            2 * v >= u2,
            s > 0,
    ;
    assert((u2 + 2) * s == u2 * s + 2 * s) by (nonlinear_arith);
}

/// Cancelling common factors keeps a denominator positive.
pub(crate) proof fn lemma_lowest_terms_positive(x: nat, q: nat)
    requires
        q >= 1,
    ensures
        lowest_terms(x, q).1 >= 1,
    decreases q,
{
    if q > 0 && x % 2 == 0 && q % 2 == 0 {
        lemma_lowest_terms_positive(x / 2, q / 2);
    } else if q > 0 && x % 5 == 0 && q % 5 == 0 {
        lemma_lowest_terms_positive(x / 5, q / 5);
    }
}

} // verus!
