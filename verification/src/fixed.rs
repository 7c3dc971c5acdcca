//! Signed 16.16 fixed-point arithmetic.
//!
//! A stored value `r` stands for the real number `r / SCALE`. Sums and
//! differences of stored values are exact; products and quotients are rounded
//! to the nearest representable value, ties away from zero. A result that
//! leaves the `i32` range is replaced by the nearest end of the range.

use vstd::prelude::*;
use vstd::arithmetic::div_mod::{
    lemma_div_is_ordered, lemma_div_pos_is_pos, lemma_fundamental_div_mod,
    lemma_fundamental_div_mod_converse, lemma_mod_bound,
};

verus! {

/// Stored units per world unit.
pub const SCALE: i32 = 65_536;

/// The quotient `n / d` rounded to the nearest integer, ties away from zero.
pub open spec fn round_div(n: int, d: int) -> int
    recommends
        d > 0,
{
    if n >= 0 {
        (2 * n + d) / (2 * d)
    } else {
        -((2 * (-n) + d) / (2 * d))
    }
}

/// The value of the `i32` range that lies nearest to `x`.
pub open spec fn saturate(x: int) -> int {
    if x < i32::MIN {
        i32::MIN as int
    } else if x > i32::MAX {
        i32::MAX as int
    } else {
        x
    }
}

/// The value lies within the `i32` range, so that storing it loses nothing.
pub open spec fn fits(x: int) -> bool {
    i32::MIN <= x <= i32::MAX
}

/// The quotient `n / SCALE`, rounded.
pub open spec fn rescaled(n: int) -> int {
    if n >= 0 {
        (n + 32_768) / 65_536
    } else {
        -((32_768 - n) / 65_536)
    }
}

/// The quotient `n / (2 * SCALE)`, rounded.
pub open spec fn rescaled_half(n: int) -> int {
    if n >= 0 {
        (n + 65_536) / 131_072
    } else {
        -((65_536 - n) / 131_072)
    }
}

/// The fixed-point product of two stored values, before saturation.
pub open spec fn product(a: int, b: int) -> int {
    rescaled(a * b)
}

/// Half of a stored value, rounded.
pub open spec fn half(a: int) -> int {
    if a >= 0 {
        (a + 1) / 2
    } else {
        -((1 - a) / 2)
    }
}

/// [`rescaled`], [`rescaled_half`] and [`half`] round as [`round_div`] does.
pub proof fn lemma_rounding_agrees(n: int)
    ensures
        rescaled(n) == round_div(n, SCALE as int),
        rescaled_half(n) == round_div(n, 2 * SCALE),
        half(n) == round_div(n, 2),
{
    assert(2 * SCALE == 131_072 && 2 * (2 * SCALE) == 262_144 && 2 * 2 == 4int);
    let a = if n >= 0 { n } else { -n };
    assert((2 * a + 65_536) / 131_072 == (a + 32_768) / 65_536);
    assert((2 * a + 131_072) / 262_144 == (a + 65_536) / 131_072);
    assert((2 * a + 2) / 4 == (a + 1) / 2);
}

/// A product lies within the product of the bounds of its factors.
pub proof fn lemma_product_bound(a: int, b: int, m: int, k: int)
    by (nonlinear_arith)
    requires
        -m <= a <= m,
        -k <= b <= k,
    ensures
        -(m * k) <= a * b <= m * k,
{
}

/// Rounding keeps a quotient within the bounds of the exact quotient.
pub proof fn lemma_round_div_bound(n: int, d: int, m: int)
    requires
        d > 0,
        m >= 0,
        -(m * d) <= n <= m * d,
    ensures
        -m <= round_div(n, d) <= m,
{
    let a = if n >= 0 { n } else { -n };
    assert(2 * (m * d) + d == m * (2 * d) + d) by (nonlinear_arith);
    lemma_div_is_ordered(2 * a + d, 2 * (m * d) + d, 2 * d);
    lemma_fundamental_div_mod_converse(2 * (m * d) + d, 2 * d, m, d);
    lemma_div_pos_is_pos(2 * a + d, 2 * d);
}

/// Rounding moves a quotient by at most one half: the rounded quotient times
/// the divisor differs from the numerator by at most half the divisor.
pub proof fn lemma_round_div_error(n: int, d: int)
    requires
        d > 0,
    ensures
        -d <= 2 * (round_div(n, d) * d - n) <= d,
{
    let a = if n >= 0 { n } else { -n };
    let q = (2 * a + d) / (2 * d);
    lemma_fundamental_div_mod(2 * a + d, 2 * d);
    lemma_mod_bound(2 * a + d, 2 * d);
    assert((2 * d) * q == 2 * (q * d)) by (nonlinear_arith);
    assert((-q) * d == -(q * d)) by (nonlinear_arith);
}

/// A product with zero is zero.
pub proof fn lemma_product_zero(a: int)
    ensures
        product(a, 0) == 0,
        product(0, a) == 0,
{
    assert(a * 0 == 0 && 0 * a == 0) by (nonlinear_arith);
}

/// Negating one factor negates the product.
pub proof fn lemma_product_negated(a: int, b: int)
    ensures
        product(-a, b) == -product(a, b),
        product(a, -b) == -product(a, b),
{
    assert((-a) * b == -(a * b) && a * (-b) == -(a * b)) by (nonlinear_arith);
}

/// A quotient that is a whole number is not changed by rounding.
pub proof fn lemma_round_div_exact(q: int, d: int)
    requires
        d > 0,
    ensures
        round_div(q * d, d) == q,
{
    let a = if q >= 0 { q } else { -q };
    assert(2 * (a * d) + d == a * (2 * d) + d) by (nonlinear_arith);
    lemma_fundamental_div_mod_converse(2 * (a * d) + d, 2 * d, a, d);
    assert(q >= 0 ==> q * d == a * d && q * d >= 0) by (nonlinear_arith)
        requires
            d > 0,
            a == if q >= 0 { q } else { -q },
    ;
    assert(q < 0 ==> -(q * d) == a * d && q * d < 0) by (nonlinear_arith)
        requires
            d > 0,
            a == if q >= 0 { q } else { -q },
    ;
}

/// Computes [`round_div`] on machine integers.
pub fn div_round(n: i128, d: i128) -> (q: i128)
    requires
        0 < d <= 0x1fff_ffff_ffff_ffff_ffff_ffff_ffff_ffff,
        -0x1fff_ffff_ffff_ffff_ffff_ffff_ffff_ffff <= n <= 0x1fff_ffff_ffff_ffff_ffff_ffff_ffff_ffff,
    ensures
        q == round_div(n as int, d as int),
{
    if n >= 0 {
        (2 * n + d) / (2 * d)
    } else {
        -((2 * (-n) + d) / (2 * d))
    }
}

/// Brings a wide intermediate result back into the stored range.
pub fn narrow(x: i128) -> (r: i32)
    ensures
        r == saturate(x as int),
{
    if x < -2_147_483_648 {
        -2_147_483_648
    } else if x > 2_147_483_647 {
        2_147_483_647
    } else {
        x as i32
    }
}

/// The fixed-point product of two values, not yet saturated.
pub fn mul_round(a: i64, b: i64) -> (r: i128)
    requires
        -0x1_0000_0000 <= a <= 0x1_0000_0000,
        -0x1_0000_0000 <= b <= 0x1_0000_0000,
    ensures
        r == product(a as int, b as int),
        -0x1_0000_0000_0000_0000 <= r <= 0x1_0000_0000_0000_0000,
{
    proof {
        lemma_product_bound(a as int, b as int, 0x1_0000_0000, 0x1_0000_0000);
        lemma_round_div_bound(a * b, SCALE as int, 0x1_0000_0000_0000_0000);
        lemma_rounding_agrees(a * b);
    }
    let wide: i128 = (a as i128) * (b as i128);
    div_round(wide, SCALE as i128)
}

/// Adds the fixed-point product `a * b` to the stored value `base`.
pub fn add_scaled(base: i32, a: i32, b: i32) -> (r: i32)
    ensures
        r == saturate(base + product(a as int, b as int)),
{
    let step: i128 = mul_round(a as i64, b as i64);
    narrow(base as i128 + step)
}

} // verus!
