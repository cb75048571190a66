//! Integer helpers shared by the fixed-point parts of the library.

use vstd::prelude::*;

verus! {

/// The larger of two integers.
pub open spec fn max_of(a: int, b: int) -> int {
    if a >= b { a } else { b }
}

/// The smaller of two integers.
pub open spec fn min_of(a: int, b: int) -> int {
    if a <= b { a } else { b }
}

/// The magnitude of an integer.
pub open spec fn abs_of(a: int) -> int {
    if a < 0 { -a } else { a }
}

/// The quotient rounded towards negative infinity.
pub fn floor_div(a: i128, b: i128) -> (q: i128)
    requires
        b > 0,
    ensures
        q == a as int / b as int,
        q * b <= a < (q + 1) * b,
{
    proof {
        lemma_quotient_bound(a as int, b as int);
        let k = a as int / b as int;
        let r = a as int % b as int;
        vstd::arithmetic::div_mod::lemma_fundamental_div_mod(a as int, b as int);
        assert(k * b <= a < (k + 1) * b) by (nonlinear_arith)
            requires
                a == b * k + r,
                0 <= r < b,
        ;
    }
    match a.checked_div_euclid(b) {
        Some(q) => q,
        None => 0,
    }
}

/// The quotient lies between zero and the dividend.
pub proof fn lemma_quotient_bound(a: int, b: int)
    requires
        b > 0,
    ensures
        a >= 0 ==> 0 <= a / b <= a,
        a < 0 ==> a <= a / b < 0,
{
    assert(a >= 0 ==> 0 <= a / b <= a) by (nonlinear_arith)
        requires
            b > 0,
    ;
    assert(a < 0 ==> a <= a / b < 0) by (nonlinear_arith)
        requires
            b > 0,
    ;
}

/// The quotient rounded to the nearest integer, halves upwards.
pub open spec fn rounded_quotient(a: int, b: int) -> int {
    (2 * a + b) / (2 * b)
}

/// A rounded quotient is a nearest integer, and at a tie the upper one; one number has
/// only one.
pub proof fn lemma_rounded_quotient(a: int, b: int, q: int)
    requires
        b > 0,
    ensures
        -b <= 2 * (a - rounded_quotient(a, b) * b) < b,
        -b <= 2 * (a - q * b) < b ==> q == rounded_quotient(a, b),
{
    let r = rounded_quotient(a, b);
    let x = 2 * a + b;
    let d = 2 * b;
    vstd::arithmetic::div_mod::lemma_fundamental_div_mod(x, d);
    assert(d * r == 2 * (r * b)) by (nonlinear_arith)
        requires
            d == 2 * b,
    ;
    assert(0 <= x % d < d);
    if -b <= 2 * (a - q * b) < b {
        assert(q == r) by (nonlinear_arith)
            requires
                -b <= 2 * (a - q * b) < b,
                -b <= 2 * (a - r * b) < b,
                b > 0,
        ;
    }
}

/// The quotient rounded to the nearest integer, halves upwards.
pub fn round_div(a: i128, b: i128) -> (q: i128)
    requires
        0 < b < 0x2000_0000_0000_0000_0000_0000_0000_0000,
        -0x2000_0000_0000_0000_0000_0000_0000_0000 < a < 0x2000_0000_0000_0000_0000_0000_0000_0000,
    ensures
        q == rounded_quotient(a as int, b as int),
        -b <= 2 * (a - q * b) < b,
{
    proof {
        lemma_rounded_quotient(a as int, b as int, 0);
    }
    floor_div(2 * a + b, 2 * b)
}

/// The quotient of a number that is not negative, rounded to the nearest integer,
/// halves to the even one.
pub open spec fn even_quotient(a: int, b: int) -> int {
    let whole = a / b;
    let rest = a % b;
    if 2 * rest > b || (2 * rest == b && whole % 2 == 1) {
        whole + 1
    } else {
        whole
    }
}

/// The quotient rounded to the nearest integer, halves to the even one.
pub fn even_div(a: u128, b: u128) -> (q: u128)
    requires
        0 < b <= i128::MAX,
        a <= i128::MAX,
    ensures
        q == even_quotient(a as int, b as int),
        -b <= 2 * (q * b - a) <= b,
        2 * (q * b - a) == b || 2 * (a - q * b) == b ==> q % 2 == 0,
{
    proof {
        lemma_even_quotient(a as int, b as int);
    }
    let whole: u128 = a / b;
    let rest: u128 = a % b;
    proof {
        lemma_quotient_bound(a as int, b as int);
    }
    if 2 * rest > b || (2 * rest == b && whole % 2 == 1) {
        whole + 1
    } else {
        whole
    }
}

/// A quotient rounded to even is a nearest integer, and at a tie the even one.
pub proof fn lemma_even_quotient(a: int, b: int)
    requires
        a >= 0,
        b > 0,
    ensures
        ({
            let q = even_quotient(a, b);
            &&& -b <= 2 * (q * b - a) <= b
            &&& 2 * abs_of(q * b - a) == b ==> q % 2 == 0
        }),
{
    vstd::arithmetic::div_mod::lemma_fundamental_div_mod(a, b);
    let whole = a / b;
    let rest = a % b;
    assert(0 <= rest < b);
    assert((whole + 1) * b == whole * b + b) by (nonlinear_arith);
    assert(whole * b == b * whole) by (nonlinear_arith);
}

/// A rounded quotient stays between bounds of the exact one.
pub proof fn lemma_rounded_between(x: int, q: int, lo: int, hi: int)
    requires
        q > 0,
        lo * q <= x <= hi * q,
    ensures
        lo <= rounded_quotient(x, q) <= hi,
{
    let y = 2 * x + q;
    let d = 2 * q;
    assert(y >= lo * d + q) by (nonlinear_arith)
        requires
            y == 2 * x + q,
            d == 2 * q,
            lo * q <= x,
    ;
    assert(y <= hi * d + q) by (nonlinear_arith)
        requires
            y == 2 * x + q,
            d == 2 * q,
            x <= hi * q,
    ;
    assert(y / d >= lo) by (nonlinear_arith)
        requires
            y >= lo * d + q,
            d == 2 * q,
            q > 0,
    ;
    assert(y / d <= hi) by (nonlinear_arith)
        requires
            y <= hi * d + q,
            d == 2 * q,
            q > 0,
    ;
}

/// A rounded quotient lies between zero and the dividend.
pub proof fn lemma_rounded_bound(a: int, b: int)
    requires
        a >= 0,
        b >= 1,
    ensures
        0 <= rounded_quotient(a, b) <= a,
{
    assert(a <= a * b) by (nonlinear_arith)
        requires
            a >= 0,
            b >= 1,
    ;
    assert(0 * b == 0);
    lemma_rounded_between(a, b, 0, a);
}

} // verus!
