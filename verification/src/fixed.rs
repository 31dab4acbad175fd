//! Fixed-point scalar arithmetic.
//!
//! A scalar is stored as the underlying real value multiplied by [`SCALE`]
//! and rounded toward negative infinity. All routines here are exact integer
//! arithmetic: floor division by a positive divisor, the fixed-point product,
//! and the integer square root used to recover a distance from a squared
//! distance.

use vstd::prelude::*;

verus! {

use vstd::arithmetic::div_mod::lemma_fundamental_div_mod;
use vstd::arithmetic::div_mod::lemma_fundamental_div_mod_converse_div;

/// Number of underlying units per one real unit: scalars carry 16 fractional
/// bits.
pub const SCALE: i64 = 65536;

/// The quotient `(m + b - 1) / b`, rounded down, is the negated Euclidean
/// quotient of `-m` by `b`: the identity behind computing a floor quotient of
/// a negative value with unsigned machine division.
proof fn lemma_div_floor_negative(m: int, b: int)
    requires
        m > 0,
        b > 0,
    ensures
        -((m + b - 1) / b) == (-m) / b,
        0 < (m + b - 1) / b <= m,
{
    let q = (-m) / b;
    let r = (-m) % b;
    lemma_fundamental_div_mod(-m, b);
    assert(m + b - 1 == (-q) * b + (b - 1 - r)) by (nonlinear_arith)
        requires
            -m == b * q + r,
    ;
    lemma_fundamental_div_mod_converse_div(m + b - 1, b, -q, b - 1 - r);
    assert(0 < -q <= m) by (nonlinear_arith)
        requires
            m + b - 1 == (-q) * b + (b - 1 - r),
            0 <= b - 1 - r < b,
            b >= 1,
            m >= 1,
    ;
}

/// Floor division: rounds toward negative infinity, as the spec-level `/`
/// does for a positive divisor.
pub fn div_floor(a: i128, b: i128) -> (r: i128)
    requires
        b > 0,
        a > i128::MIN,
    ensures
        r == a as int / b as int,
{
    if a >= 0 {
        let q = (a as u128) / (b as u128);
        proof {
            assert(q <= a) by (nonlinear_arith)
                requires
                    q == (a as u128 as int) / (b as u128 as int),
                    a as u128 as int == a as int,
                    b as u128 as int >= 1,
                    a >= 0,
            {
                lemma_fundamental_div_mod(a as u128 as int, b as u128 as int);
            }
        }
        q as i128
    } else {
        let m = (-a) as u128;
        let q = (m + (b - 1) as u128) / (b as u128);
        proof {
            lemma_div_floor_negative(m as int, b as int);
        }
        -(q as i128)
    }
}

/// A floor quotient of a nonpositive dividend loses at most one unit against
/// the negated quotient of the magnitude.
pub proof fn lemma_div_neg_lb(m: int, b: int)
    requires
        m >= 0,
        b > 0,
    ensures
        (-m) / b >= -(m / b) - 1,
{
    let q = m / b;
    let r = m % b;
    lemma_fundamental_div_mod(m, b);
    if r == 0 {
        assert(-m == (-q) * b + 0) by (nonlinear_arith)
            requires
                m == b * q + r,
                r == 0,
        ;
        lemma_fundamental_div_mod_converse_div(-m, b, -q, 0);
    } else {
        assert(-m == (-q - 1) * b + (b - r)) by (nonlinear_arith)
            requires
                m == b * q + r,
        ;
        lemma_fundamental_div_mod_converse_div(-m, b, -q - 1, b - r);
    }
}

/// Two-sided bound on a floor quotient from a two-sided bound on the
/// dividend.
pub proof fn lemma_div_bound_abs(p: int, m: int, b: int)
    requires
        -m <= p <= m,
        0 <= m,
        b > 0,
    ensures
        -(m / b) - 1 <= p / b <= m / b,
{
    vstd::arithmetic::div_mod::lemma_div_is_ordered(p, m, b);
    vstd::arithmetic::div_mod::lemma_div_is_ordered(-m, p, b);
    lemma_div_neg_lb(m, b);
}

/// Two-sided bound on a fixed-point product from bounds on its factors.
pub proof fn lemma_fxm_bound(a: int, b: int, aa: int, bb: int)
    requires
        -aa <= a <= aa,
        -bb <= b <= bb,
        0 <= aa,
        0 <= bb,
    ensures
        -(aa * bb) <= a * b <= aa * bb,
        -((aa * bb) / (SCALE as int)) - 1 <= (a * b) / (SCALE as int) <= (aa * bb) / (SCALE as int),
{
    assert(0 <= aa * bb && -(aa * bb) <= a * b <= aa * bb) by (nonlinear_arith)
        requires
            -aa <= a <= aa,
            -bb <= b <= bb,
            0 <= aa,
            0 <= bb,
    ;
    lemma_div_bound_abs(a * b, aa * bb, SCALE as int);
}

/// Fixed-point product: the exact product scaled back down by [`SCALE`],
/// rounded toward negative infinity.
pub fn fx_mul(a: i128, b: i128) -> (r: i128)
    requires
        i128::MIN < a * b <= i128::MAX,
    ensures
        r == (a * b) / (SCALE as int),
{
    let p = a * b;
    div_floor(p, SCALE as i128)
}

/// Fixed-point product of a narrow scalar with a wide accumulator: equals
/// [`fx_mul`]'s value on operands whose direct product would not fit, by
/// splitting the wide operand at the scale boundary.
pub fn fx_mul_wide(a: i128, b: i128) -> (r: i128)
    requires
        -0x1000000 <= a <= 0x1000000,
        -0x40000000000000000000000000000 <= b <= 0x40000000000000000000000000000,
    ensures
        r == (a * b) / (SCALE as int),
{
    let s = SCALE as i128;
    proof {
        lemma_div_bound_abs(b as int, 0x40000000000000000000000000000, SCALE as int);
        lemma_fundamental_div_mod(b as int, SCALE as int);
        vstd::arithmetic::div_mod::lemma_mod_division_less_than_divisor(b as int, SCALE as int);
    }
    let q = div_floor(b, s);
    let rem = b - q * s;
    proof {
        assert(rem == b as int % (SCALE as int));
        assert(-0x8000000000000000000000000 <= q <= 0x8000000000000000000000000);
        assert(-0x8000000000000000000000000000000 <= a * q <= 0x8000000000000000000000000000000)
            by (nonlinear_arith)
            requires
                -0x1000000 <= a <= 0x1000000,
                -0x8000000000000000000000000 <= q <= 0x8000000000000000000000000,
        ;
        assert(-0x10000000000 <= a * rem <= 0x10000000000) by (nonlinear_arith)
            requires
                -0x1000000 <= a <= 0x1000000,
                0 <= rem < 0x10000,
        ;
    }
    let low = fx_mul(a, rem);
    let r = a * q + low;
    proof {
        vstd::arithmetic::div_mod::lemma_hoist_over_denominator(
            a as int * rem as int,
            a as int * q as int,
            SCALE as nat,
        );
        assert(a * rem + (a * q) * (SCALE as int) == a * b) by (nonlinear_arith)
            requires
                b == (SCALE as int) * q + rem,
        ;
    }
    r
}

/// Integer square root: the greatest integer whose square does not exceed
/// the argument.
pub fn isqrt(x: u64) -> (r: u64)
    ensures
        r * r <= x < (r + 1) * (r + 1),
{
    let mut lo: u64 = 0;
    let mut hi: u64 = 4294967296;
    proof {
        assert(x < hi * hi) by (nonlinear_arith)
            requires
                hi == 4294967296u64,
                x <= u64::MAX,
        ;
    }
    while lo + 1 < hi
        invariant
            lo < hi,
            hi <= 4294967296,
            lo * lo <= x,
            x < hi * hi,
        decreases hi - lo,
    {
        let mid = lo + (hi - lo) / 2;
        assert(lo < mid < hi);
        assert(mid * mid <= u64::MAX) by (nonlinear_arith)
            requires
                mid < 4294967296u64,
        ;
        if mid * mid <= x {
            lo = mid;
        } else {
            hi = mid;
        }
    }
    lo
}

} // verus!
