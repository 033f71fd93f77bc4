//! Exact decimal numbers: a sign, a coefficient and a count of decimal places.

use vstd::prelude::*;

verus! {

/// The largest number of decimal places a `Decimal` carries.
pub const MAX_SCALE: u32 = 38;

/// Ten to the power `n`.
pub open spec fn pow10(n: nat) -> nat
    decreases n,
{
    if n == 0 {
        1
    } else {
        10 * pow10((n - 1) as nat)
    }
}

pub proof fn lemma_pow10_positive(n: nat)
    ensures
        pow10(n) >= 1,
    decreases n,
{
    if n > 0 {
        lemma_pow10_positive((n - 1) as nat);
    }
}

pub proof fn lemma_pow10_adds(a: nat, b: nat)
    ensures
        pow10(a + b) == pow10(a) * pow10(b),
    decreases b,
{
    if b > 0 {
        lemma_pow10_adds(a, (b - 1) as nat);
        assert(pow10(a + b) == 10 * pow10((a + b - 1) as nat));
        assert(pow10(a) * pow10(b) == pow10(a) * (10 * pow10((b - 1) as nat)));
        assert(pow10(a) * (10 * pow10((b - 1) as nat)) == 10 * (pow10(a) * pow10((b - 1) as nat)))
            by (nonlinear_arith);
    } else {
        assert(pow10(a) * 1 == pow10(a));
    }
}

/// One hundred.
pub proof fn lemma_pow10_two()
    ensures
        pow10(2) == 100,
{
    reveal_with_fuel(pow10, 3);
}

pub proof fn lemma_pow10_monotonic(a: nat, b: nat)
    requires
        a <= b,
    ensures
        pow10(a) <= pow10(b),
    decreases b,
{
    if a < b {
        lemma_pow10_monotonic(a, (b - 1) as nat);
        lemma_pow10_positive((b - 1) as nat);
    }
}

pub proof fn lemma_pow10_is_pow(n: nat)
    ensures
        pow10(n) == vstd::arithmetic::power::pow(10, n),
    decreases n,
{
    vstd::arithmetic::power::lemma_pow0(10);
    if n > 0 {
        lemma_pow10_is_pow((n - 1) as nat);
        vstd::arithmetic::power::lemma_pow_adds(10, 1, (n - 1) as nat);
        vstd::arithmetic::power::lemma_pow1(10);
    }
}

/// `c / 10^s` with trailing zeros of `c` cancelled against decimal places.
pub open spec fn reduced(c: nat, s: nat) -> (nat, nat)
    decreases s,
{
    if s > 0 && c % 10 == 0 {
        reduced(c / 10, (s - 1) as nat)
    } else {
        (c, s)
    }
}

/// A decimal number `±coefficient / 10^scale`.
#[derive(Clone, Copy, Debug, PartialEq, Eq, Structural)]
pub struct Decimal {
    pub negative: bool,
    pub coefficient: u128,
    pub scale: u32,
}

/// The decimal in lowest terms that equals `num / 10^scale`.
pub open spec fn decimal_of(num: int, scale: nat) -> Decimal {
    let mag: nat = if num < 0 { (-num) as nat } else { num as nat };
    let (c, s) = reduced(mag, scale);
    Decimal { negative: num < 0, coefficient: c as u128, scale: s as u32 }
}

impl Decimal {
    /// In lowest terms, with a bounded scale and no negative zero.
    pub open spec fn wf(self) -> bool {
        &&& self.scale <= MAX_SCALE
        &&& (self.scale == 0 || self.coefficient % 10 != 0)
        &&& (self.negative ==> self.coefficient > 0)
    }

    /// The signed integer that the decimal divides by `10^scale`.
    pub open spec fn numerator(self) -> int {
        if self.negative {
            -(self.coefficient as int)
        } else {
            self.coefficient as int
        }
    }

    pub open spec fn denominator(self) -> int {
        pow10(self.scale as nat) as int
    }

    /// The decimal `±coefficient / 10^scale`, put in lowest terms.
    pub fn new(negative: bool, coefficient: u128, scale: u32) -> (r: Decimal)
        requires
            scale <= MAX_SCALE,
        ensures
            r == decimal_of(if negative { -(coefficient as int) } else { coefficient as int }, scale as nat),
            r.wf(),
    {
        let mut c = coefficient;
        let mut s = scale;
        while s > 0 && c % 10 == 0
            invariant
                s <= scale <= MAX_SCALE,
                reduced(c as nat, s as nat) == reduced(coefficient as nat, scale as nat),
                c == 0 <==> coefficient == 0,
            decreases s,
        {
            c = c / 10;
            s = s - 1;
        }
        Decimal { negative: negative && c != 0, coefficient: c, scale: s }
    }

    /// The whole number `n`.
    pub fn from_integer(n: u128) -> (r: Decimal)
        ensures
            r == decimal_of(n as int, 0),
            r.wf(),
    {
        Decimal { negative: false, coefficient: n, scale: 0 }
    }

    /// The value divided by a hundred (a percentage as a fraction), when the
    /// two more decimal places fit.
    pub fn percent_as_fraction(&self) -> (r: Option<Decimal>)
        requires
            self.wf(),
        ensures
            match r {
                Some(d) => d == decimal_of(self.numerator(), (self.scale + 2) as nat) && d.wf(),
                None => self.scale + 2 > MAX_SCALE,
            },
    {
        if self.scale > MAX_SCALE - 2 {
            None
        } else {
            Some(Decimal::new(self.negative, self.coefficient, self.scale + 2))
        }
    }

    /// Whether the value is strictly greater than zero.
    pub fn is_positive(&self) -> (r: bool)
        ensures
            r == (self.numerator() > 0),
    {
        !self.negative && self.coefficient > 0
    }
}

/// A lowest-terms pair is its own reduction.
pub proof fn lemma_reduced_of_wf(d: Decimal)
    requires
        d.wf(),
    ensures
        decimal_of(d.numerator(), d.scale as nat) == d,
{
    let mag: nat = d.coefficient as nat;
    assert(reduced(mag, d.scale as nat) == (mag, d.scale as nat));
}

/// Trailing zeros added together with as many decimal places cancel.
pub proof fn lemma_reduced_shift(c: nat, s: nat, j: nat)
    ensures
        reduced(c * pow10(j), s + j) == reduced(c, s),
    decreases j,
{
    if j > 0 {
        let j1 = (j - 1) as nat;
        assert(c * pow10(j) == (c * pow10(j1)) * 10) by (nonlinear_arith)
            requires
                pow10(j) == 10 * pow10(j1),
        ;
        let m = c * pow10(j1);
        assert((m * 10) % 10 == 0 && (m * 10) / 10 == m) by (nonlinear_arith);
        assert(reduced(m * 10, s + j) == reduced(m, s + j1));
        lemma_reduced_shift(c, s, j1);
    } else {
        assert(c * 1 == c);
    }
}

pub proof fn lemma_reduced_bounds(c: nat, s: nat)
    ensures
        reduced(c, s).0 <= c,
        reduced(c, s).1 <= s,
        reduced(c, s).0 == 0 <==> c == 0,
        reduced(c, s).1 == 0 || reduced(c, s).0 % 10 != 0,
    decreases s,
{
    if s > 0 && c % 10 == 0 {
        lemma_reduced_bounds(c / 10, (s - 1) as nat);
    }
}

pub proof fn lemma_decimal_of_wf(num: int, scale: nat)
    requires
        scale <= MAX_SCALE,
        -(u128::MAX as int) <= num <= u128::MAX,
    ensures
        decimal_of(num, scale).wf(),
        decimal_of(num, scale).numerator() == 0 <==> num == 0,
{
    let mag: nat = if num < 0 { (-num) as nat } else { num as nat };
    lemma_reduced_bounds(mag, scale);
}

/// Reduction keeps the value: `c / 10^s == c' / 10^s'`.
pub proof fn lemma_reduced_value(c: nat, s: nat)
    ensures
        reduced(c, s).0 * pow10(s) == c * pow10(reduced(c, s).1),
    decreases s,
{
    if s > 0 && c % 10 == 0 {
        let s1 = (s - 1) as nat;
        lemma_reduced_value(c / 10, s1);
        let (c2, s2) = reduced(c / 10, s1);
        assert(c == 10 * (c / 10));
        assert(c2 * pow10(s) == c * pow10(s2)) by (nonlinear_arith)
            requires
                c2 * pow10(s1) == (c / 10) * pow10(s2),
                pow10(s) == 10 * pow10(s1),
                c == 10 * (c / 10),
        ;
    }
}

/// `decimal_of(num, s)` stands for `num / 10^s`.
pub proof fn lemma_decimal_of_value(num: int, s: nat)
    requires
        -(u128::MAX as int) <= num <= u128::MAX,
        s <= MAX_SCALE,
    ensures
        decimal_of(num, s).numerator() * pow10(s) == num * decimal_of(num, s).denominator(),
{
    let mag: nat = if num < 0 { (-num) as nat } else { num as nat };
    lemma_reduced_value(mag, s);
    lemma_reduced_bounds(mag, s);
    let (c, s2) = reduced(mag, s);
    let d = decimal_of(num, s);
    assert(d.coefficient == c);
    assert(d.scale == s2);
    if num < 0 {
        assert((-(c as int)) * pow10(s) == num * pow10(s2)) by (nonlinear_arith)
            requires
                c * pow10(s) == mag * pow10(s2),
                mag == -num,
        ;
    }
}

} // verus!
