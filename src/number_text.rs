//! Reading a number from text, with the syntax of Rust's floating-point
//! literals: an optional sign, then `inf`, `infinity` or `nan` in any case, or
//! digits with an optional decimal point and an optional exponent.

use crate::decimal::{lemma_pow10_monotonic, lemma_pow10_positive, pow10, Decimal, MAX_SCALE};
use crate::formula::pow10_u128;
use crate::text::chars_of;
use vstd::prelude::*;

verus! {

pub open spec fn is_digit(c: char) -> bool {
    '0' <= c && c <= '9'
}

pub open spec fn digit_of(c: char) -> nat {
    (c as int - '0' as int) as nat
}

/// The number that a string of decimal digits spells, most significant first.
pub open spec fn digits_value(s: Seq<char>) -> nat
    decreases s.len(),
{
    if s.len() == 0 {
        0
    } else {
        10 * digits_value(s.drop_last()) + digit_of(s.last())
    }
}

pub open spec fn all_digits(s: Seq<char>) -> bool {
    forall|k: int| 0 <= k < s.len() ==> is_digit(#[trigger] s[k])
}

/// The end of the run of digits that starts at `i`.
pub open spec fn digit_end(s: Seq<char>, i: int) -> int
    decreases s.len() - i,
{
    if 0 <= i < s.len() && is_digit(s[i]) {
        digit_end(s, i + 1)
    } else {
        i
    }
}

/// Whether `c` is the lower-case letter `l` in either case.
pub open spec fn same_letter(c: char, l: char) -> bool {
    c == l || (c as u32) + 32 == l as u32
}

/// Whether `s` spells the lower-case word `w`, ignoring ASCII case.
pub open spec fn matches_word(s: Seq<char>, w: Seq<char>) -> bool {
    s.len() == w.len() && forall|k: int| 0 <= k < s.len() ==> same_letter(#[trigger] s[k], w[k])
}

/// `m` without its trailing decimal zeros, and how many there were.
pub open spec fn strip_zeros(m: nat) -> (nat, nat)
    decreases m,
{
    if m > 0 && m % 10 == 0 {
        let (c, z) = strip_zeros(m / 10);
        (c, z + 1)
    } else {
        (m, 0)
    }
}

/// The exponent that the text after the digits gives: nothing at all, or `e`/`E`,
/// an optional sign and at least one digit.
pub open spec fn exponent_part(rest: Seq<char>) -> Option<int> {
    if rest.len() == 0 {
        Some(0)
    } else if rest[0] == 'e' || rest[0] == 'E' {
        let t = rest.drop_first();
        let signed = t.len() > 0 && (t[0] == '+' || t[0] == '-');
        let d = if signed { t.drop_first() } else { t };
        if d.len() > 0 && all_digits(d) {
            Some(if signed && t[0] == '-' { -(digits_value(d) as int) } else { digits_value(d) as int })
        } else {
            None
        }
    } else {
        None
    }
}

/// What a piece of text reads as.
#[derive(Clone, Copy, Debug, PartialEq, Eq, Structural)]
pub enum ParsedNumber {
    /// Not a number in the accepted syntax.
    Malformed,
    /// `nan`.
    NotANumber,
    /// `inf` or `infinity`.
    Infinite { negative: bool },
    /// A finite number, exactly.
    Exact(Decimal),
    /// A finite number other than zero whose exact value a `Decimal` cannot
    /// hold (too large, or too many decimal places).
    Inexact { negative: bool },
}

/// The number `±m * 10^(e - scale)`.
pub open spec fn literal_value(negative: bool, m: nat, scale: int, e: int) -> ParsedNumber {
    shifted_value(negative, strip_zeros(m).0, e - scale + strip_zeros(m).1)
}

/// The number `±c * 10^p`, for `c` without trailing zeros.
pub open spec fn shifted_value(negative: bool, c: nat, p: int) -> ParsedNumber {
    if c == 0 {
        ParsedNumber::Exact(Decimal { negative: false, coefficient: 0, scale: 0 })
    } else if p >= 0 {
        if c * pow10(p as nat) <= u128::MAX {
            ParsedNumber::Exact(
                Decimal { negative, coefficient: (c * pow10(p as nat)) as u128, scale: 0 },
            )
        } else {
            ParsedNumber::Inexact { negative }
        }
    } else if -p <= MAX_SCALE && c <= u128::MAX {
        ParsedNumber::Exact(Decimal { negative, coefficient: c as u128, scale: (-p) as u32 })
    } else {
        ParsedNumber::Inexact { negative }
    }
}

/// Length of a leading `+` or `-`.
pub open spec fn sign_length(s: Seq<char>) -> int {
    if s.len() > 0 && (s[0] == '+' || s[0] == '-') {
        1
    } else {
        0
    }
}

/// What the text `s` reads as.
pub open spec fn parsed(s: Seq<char>) -> ParsedNumber {
    body_value(s.subrange(sign_length(s), s.len() as int), s.len() > 0 && s[0] == '-')
}

/// What the text after the sign reads as.
pub open spec fn body_value(b: Seq<char>, negative: bool) -> ParsedNumber {
    if matches_word(b, "inf"@) || matches_word(b, "infinity"@) {
        ParsedNumber::Infinite { negative }
    } else if matches_word(b, "nan"@) {
        ParsedNumber::NotANumber
    } else {
        let i = digit_end(b, 0);
        let point = i < b.len() && b[i] == '.';
        let j = if point { digit_end(b, i + 1) } else { i };
        let digits = if point { b.subrange(0, i) + b.subrange(i + 1, j) } else { b.subrange(0, i) };
        let scale = if point { j - i - 1 } else { 0 };
        match exponent_part(b.subrange(j, b.len() as int)) {
            None => ParsedNumber::Malformed,
            Some(e) => if digits.len() == 0 {
                ParsedNumber::Malformed
            } else {
                literal_value(negative, digits_value(digits), scale, e)
            },
        }
    }
}

proof fn lemma_digits_push(s: Seq<char>, i: int)
    requires
        0 <= i < s.len(),
    ensures
        digits_value(s.subrange(0, i + 1)) == 10 * digits_value(s.subrange(0, i)) + digit_of(s[i]),
{
    assert(s.subrange(0, i + 1).drop_last() =~= s.subrange(0, i));
}

proof fn lemma_digits_monotonic(s: Seq<char>, i: int, m: int)
    requires
        0 <= i <= m <= s.len(),
    ensures
        digits_value(s.subrange(0, i)) <= digits_value(s.subrange(0, m)),
    decreases m - i,
{
    if i < m {
        lemma_digits_monotonic(s, i, m - 1);
        lemma_digits_push(s, m - 1);
    }
}

/// Trailing zero digits multiply the value by a power of ten.
proof fn lemma_digits_trailing_zeros(s: Seq<char>, m: int, n: int)
    requires
        0 <= m <= n <= s.len(),
        forall|k: int| m <= k < n ==> s[k] == '0',
    ensures
        digits_value(s.subrange(0, n)) == digits_value(s.subrange(0, m)) * pow10((n - m) as nat),
    decreases n - m,
{
    if m < n {
        lemma_digits_trailing_zeros(s, m, n - 1);
        lemma_digits_push(s, n - 1);
        let x = digits_value(s.subrange(0, m));
        let w = pow10((n - 1 - m) as nat);
        assert(pow10((n - m) as nat) == 10 * w);
        assert(10 * (x * w) == x * (10 * w)) by (nonlinear_arith);
    } else {
        assert(digits_value(s.subrange(0, m)) * 1 == digits_value(s.subrange(0, m)));
    }
}

proof fn lemma_strip_zeros(c: nat, z: nat)
    requires
        c > 0,
        c % 10 != 0,
    ensures
        strip_zeros(c * pow10(z)) == (c, z),
    decreases z,
{
    if z == 0 {
        assert(c * 1 == c);
    } else {
        let z1 = (z - 1) as nat;
        lemma_strip_zeros(c, z1);
        lemma_pow10_positive(z1);
        let m = c * pow10(z1);
        assert(c * pow10(z) == m * 10) by (nonlinear_arith)
            requires
                pow10(z) == 10 * pow10(z1),
                m == c * pow10(z1),
        ;
        assert(m * 10 > 0 && (m * 10) % 10 == 0 && (m * 10) / 10 == m) by (nonlinear_arith)
            requires
                m == c * pow10(z1),
                c > 0,
                pow10(z1) >= 1,
        ;
    }
}

/// The end of the run of digits in `b` that starts at `i`.
fn scan_digits(b: &Vec<char>, i: usize) -> (r: usize)
    requires
        i <= b.len(),
    ensures
        r == digit_end(b@, i as int),
        i <= r <= b.len(),
        forall|k: int| i <= k < r ==> is_digit(#[trigger] b@[k]),
        r < b.len() ==> !is_digit(b@[r as int]),
{
    let mut j = i;
    while j < b.len() && '0' <= b[j] && b[j] <= '9'
        invariant
            i <= j <= b.len(),
            digit_end(b@, j as int) == digit_end(b@, i as int),
            forall|k: int| i <= k < j ==> is_digit(#[trigger] b@[k]),
        decreases b.len() - j,
    {
        j = j + 1;
    }
    j
}

/// Whether `b` spells the lower-case word `w`, ignoring ASCII case.
fn spells_word(b: &Vec<char>, w: &str) -> (r: bool)
    ensures
        r == matches_word(b@, w@),
{
    let n = w.unicode_len();
    if b.len() != n {
        return false;
    }
    let mut i: usize = 0;
    while i < n
        invariant
            n == w@.len(),
            n == b@.len(),
            i <= n,
            forall|k: int| 0 <= k < i ==> same_letter(#[trigger] b@[k], w@[k]),
        decreases n - i,
    {
        let c = b[i];
        let l = w.get_char(i);
        if !(c == l || (l as u32 >= 32 && c as u32 == l as u32 - 32)) {
            return false;
        }
        i = i + 1;
    }
    true
}

/// The exponent after the digits, as a sign and a magnitude that stops growing
/// at `cap`.
fn scan_exponent(b: &Vec<char>, j: usize, cap: u128) -> (r: Option<(bool, u128)>)
    requires
        j <= b.len(),
        cap < u128::MAX / 16,
    ensures
        match r {
            None => exponent_part(b@.subrange(j as int, b.len() as int)) is None,
            Some((neg, mag)) => {
                &&& exponent_part(b@.subrange(j as int, b.len() as int)) is Some
                &&& mag <= cap
                &&& mag < cap ==> exponent_part(b@.subrange(j as int, b.len() as int))->Some_0
                    == if neg { -(mag as int) } else { mag as int }
                &&& mag == cap ==> if neg {
                    exponent_part(b@.subrange(j as int, b.len() as int))->Some_0 <= -(cap as int)
                } else {
                    exponent_part(b@.subrange(j as int, b.len() as int))->Some_0 >= cap
                }
            },
        },
{
    let ghost rest = b@.subrange(j as int, b.len() as int);
    let n = b.len();
    if j == n {
        return Some((false, 0));
    }
    if b[j] != 'e' && b[j] != 'E' {
        return None;
    }
    let ghost t = rest.drop_first();
    let mut k = j + 1;
    let mut neg = false;
    if k < n && (b[k] == '+' || b[k] == '-') {
        neg = b[k] == '-';
        k = k + 1;
    }
    let ghost d = b@.subrange(k as int, n as int);
    assert(t.len() > 0 && (t[0] == '+' || t[0] == '-') ==> d =~= t.drop_first());
    assert(!(t.len() > 0 && (t[0] == '+' || t[0] == '-')) ==> d =~= t);
    if k == n {
        assert(d.len() == 0);
        assert(rest[0] == b@[j as int]);
        assert(t =~= b@.subrange(j + 1, n as int));
        return None;
    }
    assert(rest[0] == b@[j as int]);
    assert(t =~= b@.subrange(j + 1, n as int));
    assert(exponent_part(rest) == if all_digits(d) {
        Some(if neg { -(digits_value(d) as int) } else { digits_value(d) as int })
    } else {
        None::<int>
    });
    let start = k;
    let mut mag: u128 = 0;
    while k < n
        invariant
            start <= k <= n,
            n == b.len(),
            d == b@.subrange(start as int, n as int),
            rest == b@.subrange(j as int, n as int),
            exponent_part(rest) == if all_digits(d) {
                Some(if neg { -(digits_value(d) as int) } else { digits_value(d) as int })
            } else {
                None::<int>
            },
            cap < u128::MAX / 16,
            mag <= cap,
            forall|q: int| 0 <= q < k - start ==> is_digit(#[trigger] d[q]),
            mag < cap ==> mag == digits_value(d.subrange(0, k - start)),
            mag == cap ==> digits_value(d.subrange(0, k - start)) >= cap,
        decreases n - k,
    {
        let c = b[k];
        if !('0' <= c && c <= '9') {
            assert(!all_digits(d)) by {
                assert(!is_digit(d[k - start]));
            }
            return None;
        }
        proof {
            lemma_digits_push(d, k - start);
        }
        let digit = (c as u32 - '0' as u32) as u128;
        if mag < cap {
            let next = mag * 10 + digit;
            mag = if next < cap { next } else { cap };
        }
        k = k + 1;
    }
    assert(d.subrange(0, d.len() as int) =~= d);
    assert(all_digits(d));
    Some((neg, mag))
}

/// The value of the first `len` digits of `d`, when it fits in a `u128`.
fn prefix_value(d: &Vec<char>, len: usize) -> (r: Option<u128>)
    requires
        len <= d.len(),
        all_digits(d@),
    ensures
        match r {
            Some(c) => c == digits_value(d@.subrange(0, len as int)),
            None => digits_value(d@.subrange(0, len as int)) > u128::MAX,
        },
{
    let mut c: u128 = 0;
    let mut i: usize = 0;
    assert(d@.subrange(0, 0).len() == 0);
    while i < len
        invariant
            i <= len <= d.len(),
            all_digits(d@),
            c == digits_value(d@.subrange(0, i as int)),
        decreases len - i,
    {
        assert(is_digit(d@[i as int]));
        let digit = (d[i] as u32 - '0' as u32) as u128;
        proof {
            lemma_digits_push(d@, i as int);
        }
        if c > (u128::MAX - digit) / 10 {
            proof {
                lemma_digits_monotonic(d@, i + 1, len as int);
            }
            return None;
        }
        c = c * 10 + digit;
        i = i + 1;
    }
    Some(c)
}

/// Reads a number from text with the syntax of Rust's floating-point literals
/// (`"12"`, `"-0.5"`, `"1.5e3"`, `".5"`, `"5."`, `"inf"`, `"NaN"`), exactly.
pub fn parse_number(text: &str) -> (r: ParsedNumber)
    ensures
        r == parsed(text@),
        r matches ParsedNumber::Exact(d) ==> d.wf(),
{
    let v = chars_of(text);
    let n = v.len();
    let negative = n > 0 && v[0] == '-';
    let k: usize = if n > 0 && (v[0] == '+' || v[0] == '-') {
        1
    } else {
        0
    };
    let mut b: Vec<char> = Vec::new();
    let mut q = k;
    while q < n
        invariant
            k <= q <= n,
            n == v.len(),
            b@ == v@.subrange(k as int, q as int),
        decreases n - q,
    {
        b.push(v[q]);
        q = q + 1;
        assert(b@ =~= v@.subrange(k as int, q as int));
    }
    assert(k == sign_length(text@));
    read_body(&b, negative)
}

/// What the text after the sign reads as.
fn read_body(b: &Vec<char>, negative: bool) -> (r: ParsedNumber)
    ensures
        r == body_value(b@, negative),
        r matches ParsedNumber::Exact(d) ==> d.wf(),
{
    if spells_word(b, "inf") || spells_word(b, "infinity") {
        return ParsedNumber::Infinite { negative };
    }
    if spells_word(b, "nan") {
        return ParsedNumber::NotANumber;
    }
    let i = scan_digits(b, 0);
    let point = i < b.len() && b[i] == '.';
    let j = if point {
        scan_digits(b, i + 1)
    } else {
        i
    };
    let cap: u128 = b.len() as u128 + 100;
    let exponent = scan_exponent(b, j, cap);
    let (e_neg, e_mag) = match exponent {
        None => {
            return ParsedNumber::Malformed;
        },
        Some(x) => x,
    };
    let ghost e = exponent_part(b@.subrange(j as int, b.len() as int))->Some_0;
    // All the digits, with the decimal point left out.
    let mut digits: Vec<char> = Vec::new();
    let mut q: usize = 0;
    while q < i
        invariant
            q <= i <= b.len(),
            digits@ == b@.subrange(0, q as int),
        decreases i - q,
    {
        digits.push(b[q]);
        q = q + 1;
        assert(digits@ =~= b@.subrange(0, q as int));
    }
    if point {
        let mut q: usize = i + 1;
        while q < j
            invariant
                i + 1 <= q <= j <= b.len(),
                digits@ == b@.subrange(0, i as int) + b@.subrange(i + 1, q as int),
            decreases j - q,
        {
            digits.push(b[q]);
            q = q + 1;
            assert(digits@ =~= b@.subrange(0, i as int) + b@.subrange(i + 1, q as int));
        }
    }
    let ghost spec_digits = if point {
        b@.subrange(0, i as int) + b@.subrange(i + 1, j as int)
    } else {
        b@.subrange(0, i as int)
    };
    assert(digits@ =~= spec_digits);
    if digits.len() == 0 {
        return ParsedNumber::Malformed;
    }
    assert(all_digits(digits@));
    let scale: usize = if point {
        j - i - 1
    } else {
        0
    };
    assert(scale <= b.len() && digits.len() <= b.len());
    literal_of_digits(&digits, negative, scale, e_neg, e_mag, cap, Ghost(e))
}

proof fn lemma_pow10_39()
    ensures
        pow10(39) > u128::MAX,
{
    reveal_with_fuel(pow10, 40);
}

/// A coefficient too large for a `u128` gives no exact decimal.
proof fn lemma_shifted_too_large(negative: bool, c: nat, p: int)
    requires
        c > u128::MAX,
    ensures
        shifted_value(negative, c, p) == (ParsedNumber::Inexact { negative }),
{
    if p >= 0 {
        lemma_pow10_positive(p as nat);
        assert(c * pow10(p as nat) >= c) by (nonlinear_arith)
            requires
                pow10(p as nat) >= 1,
        ;
    }
}

/// A shift of a hundred places or more either way gives no exact decimal.
proof fn lemma_shifted_far(negative: bool, c: nat, p: int)
    requires
        c >= 1,
        p >= 100 || p <= -100,
    ensures
        shifted_value(negative, c, p) == (ParsedNumber::Inexact { negative }),
{
    if p >= 0 {
        lemma_pow10_39();
        lemma_pow10_monotonic(39, p as nat);
        assert(c * pow10(p as nat) >= pow10(p as nat)) by (nonlinear_arith)
            requires
                c >= 1,
        ;
    }
}

/// The number `±c * 10^(e - scale + z)` for a coefficient `c` without trailing
/// zeros, where the exponent `e` is `±e_mag` below `cap` and at least `cap` in
/// size when `e_mag` is `cap`.
fn place_point(
    negative: bool,
    c: u128,
    z: usize,
    scale: usize,
    e_neg: bool,
    e_mag: u128,
    cap: u128,
    Ghost(e): Ghost<int>,
) -> (r: ParsedNumber)
    requires
        c > 0,
        c % 10 != 0,
        cap >= scale + 100,
        cap >= z + 100,
        cap < u128::MAX / 16,
        e_mag <= cap,
        e_mag < cap ==> e == if e_neg { -(e_mag as int) } else { e_mag as int },
        e_mag == cap ==> if e_neg { e <= -(cap as int) } else { e >= cap },
    ensures
        r == shifted_value(negative, c as nat, e - scale + z),
        r matches ParsedNumber::Exact(d) ==> d.wf(),
{
    if e_mag == cap {
        proof {
            lemma_shifted_far(negative, c as nat, e - scale + z);
        }
        return ParsedNumber::Inexact { negative };
    }
    let p: i128 = if e_neg {
        -(e_mag as i128)
    } else {
        e_mag as i128
    } - scale as i128 + z as i128;
    assert(p == e - scale + z);
    if p >= 0 {
        if p > 38 {
            proof {
                lemma_pow10_39();
                lemma_pow10_monotonic(39, p as nat);
                assert(c * pow10(p as nat) >= pow10(p as nat)) by (nonlinear_arith)
                    requires
                        c >= 1,
                ;
            }
            return ParsedNumber::Inexact { negative };
        }
        let w = pow10_u128(p as u32);
        match c.checked_mul(w) {
            None => ParsedNumber::Inexact { negative },
            Some(x) => {
                proof {
                    lemma_pow10_positive(p as nat);
                    assert(x >= 1) by (nonlinear_arith)
                        requires
                            x == c * w,
                            c >= 1,
                            w >= 1,
                    ;
                }
                ParsedNumber::Exact(Decimal { negative, coefficient: x, scale: 0 })
            },
        }
    } else {
        if p < -38 {
            return ParsedNumber::Inexact { negative };
        }
        ParsedNumber::Exact(Decimal { negative, coefficient: c, scale: (-p) as u32 })
    }
}

/// The number `±digits * 10^(e - scale)`, where the exponent `e` is
/// `±e_mag` below `cap` and at least `cap` in size when `e_mag` is `cap`.
fn literal_of_digits(
    digits: &Vec<char>,
    negative: bool,
    scale: usize,
    e_neg: bool,
    e_mag: u128,
    cap: u128,
    Ghost(e): Ghost<int>,
) -> (r: ParsedNumber)
    requires
        all_digits(digits@),
        digits.len() > 0,
        cap >= scale + 100,
        cap >= digits.len() + 100,
        cap < u128::MAX / 16,
        e_mag <= cap,
        e_mag < cap ==> e == if e_neg { -(e_mag as int) } else { e_mag as int },
        e_mag == cap ==> if e_neg { e <= -(cap as int) } else { e >= cap },
    ensures
        r == literal_value(negative, digits_value(digits@), scale as int, e),
        r matches ParsedNumber::Exact(d) ==> d.wf(),
{
    // Trailing zeros only move the decimal point.
    let mut m = digits.len();
    while m > 0 && digits[m - 1] == '0'
        invariant
            m <= digits.len(),
            forall|t: int| m <= t < digits.len() ==> digits@[t] == '0',
        decreases m,
    {
        m = m - 1;
    }
    let z = digits.len() - m;
    let ghost cv = digits_value(digits@.subrange(0, m as int));
    proof {
        lemma_digits_trailing_zeros(digits@, m as int, digits.len() as int);
        assert(digits@.subrange(0, digits.len() as int) =~= digits@);
        if m > 0 {
            lemma_digits_push(digits@, m - 1);
            assert(digits@.subrange(0, m - 1 + 1) =~= digits@.subrange(0, m as int));
            assert(cv % 10 != 0 && cv > 0);
            lemma_strip_zeros(cv, z as nat);
        } else {
            assert(digits@.subrange(0, 0).len() == 0);
            assert(cv == 0);
            assert(cv * pow10(z as nat) == 0) by (nonlinear_arith)
                requires
                    cv == 0,
            ;
            assert(digits_value(digits@) == 0);
        }
    }
    match prefix_value(digits, m) {
        None => {
            proof {
                lemma_shifted_too_large(negative, cv, e - scale + z);
            }
            ParsedNumber::Inexact { negative }
        },
        Some(c) => {
            if c == 0 {
                ParsedNumber::Exact(Decimal { negative: false, coefficient: 0, scale: 0 })
            } else {
                place_point(negative, c, z, scale, e_neg, e_mag, cap, Ghost(e))
            }
        },
    }
}

} // verus!
