//! Saturating fixed-point scalars.
//!
//! A scalar is an `i64` holding a multiple of `1 / ONE`. Every scalar that the
//! library produces lies in `[-LIMIT, LIMIT]`: results that would leave that range
//! are saturated to its nearest end, and division rounds toward negative infinity.
use vstd::arithmetic::div_mod::{
    lemma_fundamental_div_mod, lemma_fundamental_div_mod_converse, lemma_div_is_ordered,
};
use vstd::prelude::*;

verus! {

/// The scalar one: a value `v` stands for the real number `v / ONE`.
pub const ONE: i64 = 65536;

/// Largest magnitude of a scalar.
pub const LIMIT: i64 = 1099511627776;

/// Whether `v` is a valid scalar.
pub open spec fn in_range(v: int) -> bool {
    -LIMIT <= v <= LIMIT
}

/// `v` saturated to `[-LIMIT, LIMIT]`.
pub open spec fn sat(v: int) -> int {
    if v > LIMIT {
        LIMIT as int
    } else if v < -LIMIT {
        -LIMIT
    } else {
        v
    }
}

/// Floor of `n / d` for a nonzero `d`.
pub open spec fn div_floor(n: int, d: int) -> int {
    if d > 0 {
        n / d
    } else {
        (-n) / (-d)
    }
}

/// The scalar product of two scalars.
pub open spec fn mul_spec(a: int, b: int) -> int {
    sat(div_floor(a * b, ONE as int))
}

/// The scalar quotient `a / b`; a zero divisor saturates by the sign of `a`.
pub open spec fn div_spec(a: int, b: int) -> int {
    if b == 0 {
        if a > 0 {
            LIMIT as int
        } else if a < 0 {
            -LIMIT
        } else {
            0
        }
    } else {
        sat(div_floor(a * ONE, b))
    }
}

/// The fraction `num / den` as a scalar; an empty interval (`den == 0`) gives zero.
pub open spec fn fraction_spec(num: int, den: int) -> int {
    if den == 0 {
        0
    } else {
        sat(div_floor(num * ONE, den))
    }
}

/// Linear interpolation held at its ends: `a` below zero, `b` above one.
pub open spec fn lerp_spec(a: int, b: int, t: int) -> int {
    if t < 0 {
        a
    } else if t > ONE {
        b
    } else {
        a + div_floor((b - a) * t, ONE as int)
    }
}

/// Straight linear interpolation, extrapolating outside `[0, ONE]`.
pub open spec fn lerp_unclamped_spec(a: int, b: int, t: int) -> int {
    sat(a + div_floor((b - a) * t, ONE as int))
}

/// The integer nearest to the scalar `v`, halves rounded up.
pub open spec fn round_spec(v: int) -> int {
    div_floor(v + ONE / 2, ONE as int)
}

proof fn lemma_neg_div(n: int, d: int)
    requires
        n < 0,
        d > 0,
    ensures
        n / d == -((-n - 1) / d) - 1,
{
    let m = -n - 1;
    lemma_fundamental_div_mod(m, d);
    let q = m / d;
    let r = m % d;
    assert(n == (-q - 1) * d + (d - r - 1)) by (nonlinear_arith)
        requires
            m == d * q + r,
            n == -m - 1,
    ;
    lemma_fundamental_div_mod_converse(n, d, -q - 1, d - r - 1);
}

/// Floor division of wide integers.
pub fn floor_div(n: i128, d: i128) -> (q: i128)
    requires
        d != 0,
        -0x1000_0000_0000_0000_0000_0000_0000 <= n <= 0x1000_0000_0000_0000_0000_0000_0000,
        -0x1000_0000_0000_0000_0000_0000_0000 <= d <= 0x1000_0000_0000_0000_0000_0000_0000,
    ensures
        q == div_floor(n as int, d as int),
{
    let (n, d) = if d > 0 {
        (n, d)
    } else {
        (-n, -d)
    };
    if n >= 0 {
        n / d
    } else {
        proof {
            lemma_neg_div(n as int, d as int);
        }
        let m = (-n - 1) / d;
        -m - 1
    }
}

/// Saturates a wide integer to a scalar.
pub fn saturate(v: i128) -> (r: i64)
    ensures
        r == sat(v as int),
{
    if v > LIMIT as i128 {
        LIMIT
    } else if v < -(LIMIT as i128) {
        -LIMIT
    } else {
        v as i64
    }
}

proof fn lemma_div_floor_bounds(n: int, d: int, bound: int)
    requires
        d >= 1,
        -bound <= n <= bound,
    ensures
        -bound <= div_floor(n, d) <= bound,
{
    lemma_div_is_ordered(n, bound, d);
    lemma_div_is_ordered(-bound, n, d);
    assert(bound / d <= bound) by {
        lemma_fundamental_div_mod(bound, d);
        if bound >= 0 {
            assert(bound / d <= bound) by (nonlinear_arith)
                requires
                    bound == d * (bound / d) + bound % d,
                    bound % d >= 0,
                    d >= 1,
                    bound >= 0,
            ;
        }
    }
    assert(-bound / d >= -bound) by {
        lemma_fundamental_div_mod(-bound, d);
        assert(-bound / d >= -bound) by (nonlinear_arith)
            requires
                -bound == d * (-bound / d) + (-bound) % d,
                (-bound) % d < d,
                d >= 1,
                bound >= 0,
        ;
    }
}

proof fn lemma_mul_bound(a: int, b: int, ba: int, bb: int)
    requires
        -ba <= a <= ba,
        -bb <= b <= bb,
    ensures
        -(ba * bb) <= a * b <= ba * bb,
{
    assert(-(ba * bb) <= a * b <= ba * bb) by (nonlinear_arith)
        requires
            -ba <= a <= ba,
            -bb <= b <= bb,
    ;
}

/// Sum of two scalars, saturated.
pub fn fx_add(a: i64, b: i64) -> (r: i64)
    requires
        in_range(a as int),
        in_range(b as int),
    ensures
        r == sat(a + b),
{
    saturate(a as i128 + b as i128)
}

/// Difference of two scalars, saturated.
pub fn fx_sub(a: i64, b: i64) -> (r: i64)
    requires
        in_range(a as int),
        in_range(b as int),
    ensures
        r == sat(a - b),
{
    saturate(a as i128 - b as i128)
}

/// Product of two scalars.
pub fn fx_mul(a: i64, b: i64) -> (r: i64)
    requires
        in_range(a as int),
        in_range(b as int),
    ensures
        r == mul_spec(a as int, b as int),
{
    proof {
        lemma_mul_bound(a as int, b as int, LIMIT as int, LIMIT as int);
    }
    let p = a as i128 * b as i128;
    saturate(floor_div(p, ONE as i128))
}

/// Quotient of two scalars.
pub fn fx_div(a: i64, b: i64) -> (r: i64)
    requires
        in_range(a as int),
        in_range(b as int),
    ensures
        r == div_spec(a as int, b as int),
{
    if b == 0 {
        if a > 0 {
            LIMIT
        } else if a < 0 {
            -LIMIT
        } else {
            0
        }
    } else {
        proof {
            lemma_mul_bound(a as int, ONE as int, LIMIT as int, ONE as int);
        }
        saturate(floor_div(a as i128 * ONE as i128, b as i128))
    }
}

/// The fraction `num / den` as a scalar, zero when `den` is zero.
pub fn fraction(num: i64, den: i64) -> (r: i64)
    requires
        -2 * LIMIT <= num <= 2 * LIMIT,
        -2 * LIMIT <= den <= 2 * LIMIT,
    ensures
        r == fraction_spec(num as int, den as int),
        in_range(r as int),
{
    if den == 0 {
        0
    } else {
        proof {
            lemma_mul_bound(num as int, ONE as int, 2 * LIMIT, ONE as int);
        }
        saturate(floor_div(num as i128 * ONE as i128, den as i128))
    }
}

/// Linear interpolation from `a` to `b` by `t`, held at `a` for `t < 0` and at
/// `b` for `t > ONE`.
pub fn lerp(a: i64, b: i64, t: i64) -> (r: i64)
    requires
        in_range(a as int),
        in_range(b as int),
    ensures
        r == lerp_spec(a as int, b as int, t as int),
        in_range(r as int),
        a <= b ==> a <= r <= b,
        b <= a ==> b <= r <= a,
{
    if t < 0 {
        a
    } else if t > ONE {
        b
    } else {
        let d = b as i128 - a as i128;
        proof {
            lemma_mul_bound(d as int, t as int, 2 * LIMIT, ONE as int);
            if d >= 0 {
                assert(0 <= d * t <= d * ONE) by (nonlinear_arith)
                    requires
                        d >= 0,
                        0 <= t <= ONE,
                ;
                lemma_div_is_ordered(0, d * t, ONE as int);
                lemma_div_is_ordered(d * t, d * ONE, ONE as int);
                assert((d * ONE) / (ONE as int) == d) by (nonlinear_arith);
            } else {
                assert(d * ONE <= d * t <= 0) by (nonlinear_arith)
                    requires
                        d < 0,
                        0 <= t <= ONE,
                ;
                lemma_div_is_ordered(d * t, 0, ONE as int);
                lemma_div_is_ordered(d * ONE, d * t, ONE as int);
                assert((d * ONE) / (ONE as int) == d) by (nonlinear_arith);
            }
        }
        let q = floor_div(d * t as i128, ONE as i128);
        (a as i128 + q) as i64
    }
}

/// Straight linear interpolation from `a` to `b` by `t`, saturated.
pub fn lerp_unclamped(a: i64, b: i64, t: i64) -> (r: i64)
    requires
        in_range(a as int),
        in_range(b as int),
        in_range(t as int),
    ensures
        r == lerp_unclamped_spec(a as int, b as int, t as int),
{
    let d = b as i128 - a as i128;
    proof {
        lemma_mul_bound(d as int, t as int, 2 * LIMIT, LIMIT as int);
        lemma_div_floor_bounds(d * t, ONE as int, 2 * LIMIT * LIMIT);
    }
    let q = floor_div(d * t as i128, ONE as i128);
    saturate(a as i128 + q)
}

/// The integer nearest to a scalar, halves rounded up.
pub fn round_fx(v: i64) -> (r: i64)
    requires
        -2 * LIMIT <= v <= 2 * LIMIT,
    ensures
        r == round_spec(v as int),
{
    proof {
        lemma_div_floor_bounds(v + ONE / 2, ONE as int, 3 * LIMIT);
    }
    floor_div(v as i128 + (ONE / 2) as i128, ONE as i128) as i64
}


/// The clamped interpolation gives `a` at zero and below, `b` at one and above;
/// the straight one meets it at both ends and runs on past them.
pub proof fn lemma_lerp_ends(a: int, b: int, t: int)
    requires
        in_range(a),
        in_range(b),
    ensures
        lerp_spec(a, b, 0) == a,
        lerp_spec(a, b, ONE as int) == b,
        t < 0 ==> lerp_spec(a, b, t) == a,
        t > ONE ==> lerp_spec(a, b, t) == b,
        lerp_unclamped_spec(a, b, 0) == a,
        lerp_unclamped_spec(a, b, ONE as int) == b,
        lerp_unclamped_spec(a, b, 2 * ONE) == sat(2 * b - a),
        lerp_unclamped_spec(a, b, -ONE) == sat(2 * a - b),
{
    assert(((b - a) * 0) / (ONE as int) == 0);
    assert(((b - a) * ONE) / (ONE as int) == b - a) by (nonlinear_arith);
    assert(((b - a) * (2 * ONE)) / (ONE as int) == 2 * (b - a)) by (nonlinear_arith);
    assert(((b - a) * (-ONE)) / (ONE as int) == a - b) by (nonlinear_arith);
}

} // verus!
