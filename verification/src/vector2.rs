//! Overflow-free cross and dot products of integer vectors.
//!
//! A vector is a pair `(x, y)` of `i64` components. Products are formed in
//! 128-bit arithmetic, and every contract is stated over unbounded integers.

use vstd::prelude::*;

verus! {

/// The z-component of `a × b`: positive exactly when `b` lies
/// counter-clockwise of `a`.
pub open spec fn cross_spec(a: (i64, i64), b: (i64, i64)) -> int {
    a.0 * b.1 - a.1 * b.0
}

/// The inner product `a · b`.
pub open spec fn dot_spec(a: (i64, i64), b: (i64, i64)) -> int {
    a.0 * b.0 + a.1 * b.1
}

/// The squared Euclidean length of `a`.
pub open spec fn norm2_spec(a: (i64, i64)) -> int {
    a.0 * a.0 + a.1 * a.1
}

/// Whether `a` is the zero vector, which has no direction.
pub open spec fn is_origin(a: (i64, i64)) -> bool {
    a.0 == 0 && a.1 == 0
}

/// A product of two `i64` values lies between `-(2^126 - 2^63)` and
/// `2^126`, which only the square of `i64::MIN` reaches.
pub proof fn lemma_product_bounds(x: i64, y: i64)
    ensures
        -0x3fff_ffff_ffff_ffff_8000_0000_0000_0000 <= x * y,
        x * y <= 0x4000_0000_0000_0000_0000_0000_0000_0000,
        x * y == 0x4000_0000_0000_0000_0000_0000_0000_0000 ==> x == i64::MIN && y == i64::MIN,
{
    let lo: int = -0x8000_0000_0000_0000;
    let hi: int = 0x7fff_ffff_ffff_ffff;
    let xi: int = x as int;
    let yi: int = y as int;
    assert((xi - lo) * (yi - lo) >= 0) by (nonlinear_arith)
        requires
            xi >= lo,
            yi >= lo,
    ;
    assert((hi - xi) * (hi - yi) >= 0) by (nonlinear_arith)
        requires
            xi <= hi,
            yi <= hi,
    ;
    assert((xi - lo) * (hi - yi) >= 0) by (nonlinear_arith)
        requires
            xi >= lo,
            yi <= hi,
    ;
    assert((hi - xi) * (yi - lo) >= 0) by (nonlinear_arith)
        requires
            xi <= hi,
            yi >= lo,
    ;
    assert((xi - lo) * (yi - lo) == xi * yi - lo * xi - lo * yi + lo * lo) by (nonlinear_arith);
    assert((hi - xi) * (hi - yi) == xi * yi - hi * xi - hi * yi + hi * hi) by (nonlinear_arith);
    assert((xi - lo) * (hi - yi) == -(xi * yi) + hi * xi + lo * yi - lo * hi) by (nonlinear_arith);
    assert((hi - xi) * (yi - lo) == -(xi * yi) + lo * xi + hi * yi - lo * hi) by (nonlinear_arith);
}

/// Cross product `a.x * b.y - a.y * b.x`, exact for every pair of inputs.
pub fn cross(a: (i64, i64), b: (i64, i64)) -> (r: i128)
    ensures
        r == cross_spec(a, b),
{
    proof {
        lemma_product_bounds(a.0, b.1);
        lemma_product_bounds(a.1, b.0);
    }
    (a.0 as i128) * (b.1 as i128) - (a.1 as i128) * (b.0 as i128)
}

/// Exchanging the operands flips the sign of the cross product.
pub proof fn lemma_cross_antisymmetric(a: (i64, i64), b: (i64, i64))
    ensures
        cross_spec(b, a) == -cross_spec(a, b),
{
    assert(b.0 * a.1 == a.1 * b.0) by (nonlinear_arith);
    assert(b.1 * a.0 == a.0 * b.1) by (nonlinear_arith);
}

/// Whether `a · b` can be held in 128 signed bits. It cannot for exactly one
/// input: all four components equal to `i64::MIN`.
pub open spec fn dot_fits(a: (i64, i64), b: (i64, i64)) -> bool {
    !(a.0 == i64::MIN && a.1 == i64::MIN && b.0 == i64::MIN && b.1 == i64::MIN)
}

/// `dot_fits` is exactly the condition that the inner product is at most
/// `i128::MAX`; it is never below `i128::MIN`.
pub proof fn lemma_dot_fits(a: (i64, i64), b: (i64, i64))
    ensures
        i128::MIN <= dot_spec(a, b),
        dot_fits(a, b) <==> dot_spec(a, b) <= i128::MAX,
{
    lemma_product_bounds(a.0, b.0);
    lemma_product_bounds(a.1, b.1);
}

/// Dot product `a.x * b.x + a.y * b.y`.
///
/// The single input whose product is `2^127` is excluded, as no `i128`
/// holds it.
pub fn dot(a: (i64, i64), b: (i64, i64)) -> (r: i128)
    requires
        dot_fits(a, b),
    ensures
        r == dot_spec(a, b),
{
    proof {
        lemma_dot_fits(a, b);
        lemma_product_bounds(a.0, b.0);
        lemma_product_bounds(a.1, b.1);
    }
    (a.0 as i128) * (b.0 as i128) + (a.1 as i128) * (b.1 as i128)
}

/// Squared distance of `a` from the origin, exact for every input.
pub fn norm2(a: (i64, i64)) -> (r: u128)
    ensures
        r == norm2_spec(a),
{
    proof {
        lemma_product_bounds(a.0, a.0);
        lemma_product_bounds(a.1, a.1);
        assert(a.0 * a.0 >= 0) by (nonlinear_arith);
        assert(a.1 * a.1 >= 0) by (nonlinear_arith);
    }
    let xx: i128 = (a.0 as i128) * (a.0 as i128);
    let yy: i128 = (a.1 as i128) * (a.1 as i128);
    (xx as u128) + (yy as u128)
}

/// Absolute value over the integers.
pub open spec fn abs_spec(v: int) -> int {
    if v < 0 {
        -v
    } else {
        v
    }
}

/// The two quantities whose two-argument arctangent is the unsigned angle
/// between `a` and `b`: `(|a × b|, a · b)`. A zero vector has no direction
/// and yields `None`.
pub open spec fn angle_terms_spec(a: (i64, i64), b: (i64, i64)) -> Option<(int, int)> {
    if is_origin(a) || is_origin(b) {
        None
    } else {
        Some((abs_spec(cross_spec(a, b)), dot_spec(a, b)))
    }
}

/// Computes `(|a × b|, a · b)`, the sine-like and cosine-like terms of the
/// angle between two directions, or `None` when either vector is zero.
///
/// The unsigned angle in `[0, π]` is `atan2` of the pair; a caller working
/// in floating point takes the angle of a `None` to be `0`.
pub fn angle_terms(a: (i64, i64), b: (i64, i64)) -> (r: Option<(i128, i128)>)
    requires
        dot_fits(a, b),
    ensures
        r is None <==> is_origin(a) || is_origin(b),
        match r {
            Some((s, c)) => angle_terms_spec(a, b) == Some((s as int, c as int)),
            None => angle_terms_spec(a, b) is None,
        },
{
    if (a.0 == 0 && a.1 == 0) || (b.0 == 0 && b.1 == 0) {
        return None;
    }
    proof {
        lemma_product_bounds(a.0, b.1);
        lemma_product_bounds(a.1, b.0);
    }
    let cr = cross(a, b);
    let s = if cr < 0 {
        -cr
    } else {
        cr
    };
    Some((s, dot(a, b)))
}

/// The angle terms do not depend on the order of the two vectors.
pub proof fn lemma_angle_terms_symmetric(a: (i64, i64), b: (i64, i64))
    ensures
        angle_terms_spec(a, b) == angle_terms_spec(b, a),
{
    assert(cross_spec(a, b) == -cross_spec(b, a)) by (nonlinear_arith)
        requires
            cross_spec(a, b) == a.0 * b.1 - a.1 * b.0,
            cross_spec(b, a) == b.0 * a.1 - b.1 * a.0,
    ;
    assert(dot_spec(a, b) == dot_spec(b, a)) by (nonlinear_arith)
        requires
            dot_spec(a, b) == a.0 * b.0 + a.1 * b.1,
            dot_spec(b, a) == b.0 * a.0 + b.1 * a.1,
    ;
}

/// `(s * x) * (t * y)` regrouped as `(s * t) * (x * y)`.
proof fn lemma_scaled_product(s: int, x: int, t: int, y: int)
    ensures
        (s * x) * (t * y) == (s * t) * (x * y),
{
    assert((s * x) * (t * y) == (s * t) * (x * y)) by (nonlinear_arith);
}

/// Whether `p` is `a` stretched by the factor `s`.
pub open spec fn is_scaled(p: (i64, i64), s: int, a: (i64, i64)) -> bool {
    p.0 == s * a.0 && p.1 == s * a.1
}

/// Stretching `a` by `s > 0` and `b` by `t > 0` multiplies both angle terms
/// by the same positive factor `s * t`, so the direction of the pair
/// `(|a × b|, a · b)`, and with it the angle, is unchanged.
pub proof fn lemma_angle_terms_scale(
    a: (i64, i64),
    b: (i64, i64),
    s: int,
    t: int,
    sa: (i64, i64),
    tb: (i64, i64),
)
    requires
        !is_origin(a),
        !is_origin(b),
        s > 0,
        t > 0,
        is_scaled(sa, s, a),
        is_scaled(tb, t, b),
    ensures
        s * t > 0,
        angle_terms_spec(sa, tb) == Some(
            (s * t * angle_terms_spec(a, b).unwrap().0, s * t * angle_terms_spec(a, b).unwrap().1),
        ),
{
    let k = s * t;
    assert(k > 0) by (nonlinear_arith)
        requires
            k == s * t,
            s > 0,
            t > 0,
    ;
    assert(sa.0 != 0 || sa.1 != 0) by (nonlinear_arith)
        requires
            sa.0 == s * a.0,
            sa.1 == s * a.1,
            s > 0,
            a.0 != 0 || a.1 != 0,
    ;
    assert(tb.0 != 0 || tb.1 != 0) by (nonlinear_arith)
        requires
            tb.0 == t * b.0,
            tb.1 == t * b.1,
            t > 0,
            b.0 != 0 || b.1 != 0,
    ;
    let c = cross_spec(a, b);
    let d = dot_spec(a, b);
    lemma_scaled_product(s, a.0 as int, t, b.1 as int);
    lemma_scaled_product(s, a.1 as int, t, b.0 as int);
    lemma_scaled_product(s, a.0 as int, t, b.0 as int);
    lemma_scaled_product(s, a.1 as int, t, b.1 as int);
    assert(k * (a.0 * b.1 - a.1 * b.0) == k * (a.0 * b.1) - k * (a.1 * b.0))
        by (nonlinear_arith);
    assert(k * (a.0 * b.0 + a.1 * b.1) == k * (a.0 * b.0) + k * (a.1 * b.1))
        by (nonlinear_arith);
    assert(cross_spec(sa, tb) == k * c);
    assert(dot_spec(sa, tb) == k * d);
    assert(abs_spec(k * c) == k * abs_spec(c)) by (nonlinear_arith)
        requires
            k > 0,
            abs_spec(c) == if c < 0 { -c } else { c },
            abs_spec(k * c) == if k * c < 0 { -(k * c) } else { k * c },
    ;
}

} // verus!
