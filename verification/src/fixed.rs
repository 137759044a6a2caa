//! Fixed-point numbers with nine decimal places.
//!
//! A real number `x` is held as the integer `x * ONE`. Products and quotients
//! round toward zero, so that the arithmetic is symmetric in sign.

use vstd::prelude::*;

verus! {

/// The fixed-point representation of `1.0`.
pub const ONE: i64 = 1_000_000_000;

/// Whether `x` lies in the closed unit interval `[-1, 1]`.
pub open spec fn in_unit(x: int) -> bool {
    -ONE <= x <= ONE
}

/// Quotient of `a` by a positive `b`, rounded toward zero.
pub open spec fn div_trunc(a: int, b: int) -> int
    recommends
        b > 0,
{
    if a >= 0 {
        a / b
    } else {
        -((-a) / b)
    }
}

/// Fixed-point product of `a` and `b`.
pub open spec fn fx_mul(a: int, b: int) -> int {
    div_trunc(a * b, ONE as int)
}

/// `x` squeezed into `[-1, 1]`.
pub open spec fn clamp_unit(x: int) -> int {
    if x < -ONE {
        -ONE as int
    } else if x > ONE {
        ONE as int
    } else {
        x
    }
}

/// Rounding toward zero never moves a quotient past the bounds of its
/// dividend: if `|a| <= m * b` then `|a / b| <= m`.
pub proof fn lemma_div_trunc_bound(a: int, b: int, m: int)
    requires
        b > 0,
        m >= 0,
        -(m * b) <= a <= m * b,
    ensures
        -m <= div_trunc(a, b) <= m,
{
    if a >= 0 {
        assert(a / b <= m) by (nonlinear_arith)
            requires
                0 <= a <= m * b,
                b > 0,
        ;
        assert(a / b >= 0) by (nonlinear_arith)
            requires
                0 <= a,
                b > 0,
        ;
    } else {
        let n = -a;
        assert(n / b <= m) by (nonlinear_arith)
            requires
                0 <= n <= m * b,
                b > 0,
        ;
        assert(n / b >= 0) by (nonlinear_arith)
            requires
                0 <= n,
                b > 0,
        ;
    }
}

/// A quotient rounded toward zero has the sign of its dividend.
pub proof fn lemma_div_trunc_sign(a: int, b: int)
    requires
        b > 0,
    ensures
        a >= 0 ==> div_trunc(a, b) >= 0,
        a <= 0 ==> div_trunc(a, b) <= 0,
        a == 0 ==> div_trunc(a, b) == 0,
{
    if a >= 0 {
        assert(a / b >= 0) by (nonlinear_arith)
            requires
                0 <= a,
                b > 0,
        ;
    } else {
        let n = -a;
        assert(n / b >= 0) by (nonlinear_arith)
            requires
                0 <= n,
                b > 0,
        ;
    }
}

/// The product of two numbers of the unit interval lies in it.
pub proof fn lemma_fx_mul_unit(a: int, b: int)
    requires
        in_unit(a),
        in_unit(b),
    ensures
        in_unit(fx_mul(a, b)),
{
    let one = ONE as int;
    assert(-(one * one) <= a * b <= one * one) by (nonlinear_arith)
        requires
            -one <= a <= one,
            -one <= b <= one,
    ;
    lemma_div_trunc_bound(a * b, one, one);
}

/// Quotient of `a` by a positive `b`, rounded toward zero.
pub fn div_toward_zero(a: i128, b: i128) -> (q: i128)
    requires
        b > 0,
    ensures
        q == div_trunc(a as int, b as int),
{
    if a >= 0 {
        a / b
    } else if a == i128::MIN {
        // -MIN is not representable; MIN = -(MAX) - 1.
        let m: i128 = i128::MAX;
        let q0: i128 = m / b;
        let r0: i128 = m % b;
        proof {
            let n = -(a as int);
            assert(n == m + 1);
            assert(m == q0 * b + r0 && 0 <= r0 < b) by (nonlinear_arith)
                requires
                    q0 == m / b,
                    r0 == m % b,
                    b > 0,
                    m >= 0,
            ;
            if r0 + 1 == b {
                assert(n == (q0 + 1) * b) by (nonlinear_arith)
                    requires
                        n == m + 1,
                        m == q0 * b + r0,
                        r0 + 1 == b,
                ;
                assert(n / (b as int) == q0 + 1) by (nonlinear_arith)
                    requires
                        n == (q0 + 1) * b,
                        b > 0,
                ;
            } else {
                assert(n / (b as int) == q0) by (nonlinear_arith)
                    requires
                        n == q0 * b + (r0 + 1),
                        0 <= r0 + 1 < b,
                        b > 0,
                ;
            }
            assert(q0 >= 0) by (nonlinear_arith)
                requires
                    q0 == m / b,
                    b > 0,
                    m >= 0,
            ;
            assert(q0 <= m) by (nonlinear_arith)
                requires
                    q0 == m / b,
                    b >= 1,
                    m >= 0,
            ;
        }
        if r0 + 1 == b {
            -q0 - 1
        } else {
            -q0
        }
    } else {
        let n: i128 = -a;
        let q0: i128 = n / b;
        proof {
            assert(q0 >= 0) by (nonlinear_arith)
                requires
                    q0 == n / b,
                    b > 0,
                    n >= 0,
            ;
        }
        -q0
    }
}

/// Fixed-point product of two stored numbers.
pub fn mul_fixed(a: i64, b: i64) -> (p: i128)
    ensures
        p == fx_mul(a as int, b as int),
{
    assert(-0x4000_0000_0000_0000_0000_0000_0000_0000 <= (a as int) * (b as int)
        <= 0x4000_0000_0000_0000_0000_0000_0000_0000) by (nonlinear_arith)
        requires
            -0x8000_0000_0000_0000 <= a <= 0x8000_0000_0000_0000,
            -0x8000_0000_0000_0000 <= b <= 0x8000_0000_0000_0000,
    ;
    let wide: i128 = (a as i128) * (b as i128);
    div_toward_zero(wide, ONE as i128)
}

/// `x` squeezed into `[-1, 1]`.
pub fn clamp_to_unit(x: i128) -> (r: i64)
    ensures
        r == clamp_unit(x as int),
        in_unit(r as int),
{
    if x < -(ONE as i128) {
        -ONE
    } else if x > ONE as i128 {
        ONE
    } else {
        x as i64
    }
}

} // verus!
