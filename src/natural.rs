//! Unbounded natural numbers, held as base 2^32 limbs (least significant
//! first). The arithmetic itself is done by `num`'s `BigUint`.

use num::BigUint;
use num::Integer;
use num::ToPrimitive;
use vstd::prelude::*;

verus! {

/// The number that little-endian base 2^32 limbs stand for.
pub open spec fn limbs_value(s: Seq<u32>) -> nat
    decreases s.len(),
{
    if s.len() == 0 {
        0
    } else {
        s[0] as nat + 4294967296 * limbs_value(s.drop_first())
    }
}

/// An unbounded natural number.
pub(crate) struct Natural {
    pub(crate) limbs: Vec<u32>,
}

impl Natural {
    pub(crate) open spec fn value(&self) -> nat {
        limbs_value(self.limbs@)
    }
}

/// Relies on `BigUint::from(u128)` and `BigUint::to_u32_digits`: the limbs of `x`.
#[verifier::external_body]
pub(crate) fn nat_from_u128(x: u128) -> (r: Natural)
    ensures
        r.value() == x,
{
    Natural { limbs: BigUint::from(x).to_u32_digits() }
}

/// Relies on `BigUint`'s `+`: the exact sum.
#[verifier::external_body]
pub(crate) fn nat_add(a: &Natural, b: &Natural) -> (r: Natural)
    ensures
        r.value() == a.value() + b.value(),
{
    let s = BigUint::new(a.limbs.clone()) + BigUint::new(b.limbs.clone());
    Natural { limbs: s.to_u32_digits() }
}

/// Relies on `BigUint`'s `-`, which panics when `b` exceeds `a`: the exact difference.
#[verifier::external_body]
pub(crate) fn nat_sub(a: &Natural, b: &Natural) -> (r: Natural)
    requires
        b.value() <= a.value(),
    ensures
        r.value() == a.value() - b.value(),
{
    let d = BigUint::new(a.limbs.clone()) - BigUint::new(b.limbs.clone());
    Natural { limbs: d.to_u32_digits() }
}

/// Relies on `BigUint`'s `*`: the exact product.
#[verifier::external_body]
pub(crate) fn nat_mul(a: &Natural, b: &Natural) -> (r: Natural)
    ensures
        r.value() == a.value() * b.value(),
{
    let p = BigUint::new(a.limbs.clone()) * BigUint::new(b.limbs.clone());
    Natural { limbs: p.to_u32_digits() }
}

/// Relies on `BigUint::pow`: `a` raised to `e`.
#[verifier::external_body]
pub(crate) fn nat_pow(a: &Natural, e: u32) -> (r: Natural)
    ensures
        r.value() == vstd::arithmetic::power::pow(a.value() as int, e as nat),
{
    let p = BigUint::new(a.limbs.clone()).pow(e);
    Natural { limbs: p.to_u32_digits() }
}

/// Relies on `Integer::div_rem` of `BigUint`, which panics on a zero divisor:
/// floor quotient and remainder.
#[verifier::external_body]
pub(crate) fn nat_div_rem(a: &Natural, b: &Natural) -> (r: (Natural, Natural))
    requires
        b.value() > 0,
    ensures
        r.0.value() == a.value() / b.value(),
        r.1.value() == a.value() % b.value(),
{
    let (q, m) = BigUint::new(a.limbs.clone()).div_rem(&BigUint::new(b.limbs.clone()));
    (Natural { limbs: q.to_u32_digits() }, Natural { limbs: m.to_u32_digits() })
}

/// Relies on `BigUint`'s `Ord`: whether `a` is at most `b`.
#[verifier::external_body]
pub(crate) fn nat_le(a: &Natural, b: &Natural) -> (r: bool)
    ensures
        r == (a.value() <= b.value()),
{
    BigUint::new(a.limbs.clone()) <= BigUint::new(b.limbs.clone())
}

/// Relies on `ToPrimitive::to_u128` of `BigUint`: the value when it fits in a `u128`.
#[verifier::external_body]
pub(crate) fn nat_to_u128(a: &Natural) -> (r: Option<u128>)
    ensures
        match r {
            Some(x) => x == a.value(),
            None => a.value() > u128::MAX,
        },
{
    BigUint::new(a.limbs.clone()).to_u128()
}

} // verus!
