//! The angular order of integer points.
//!
//! Points are ordered by their direction as seen from the origin, starting
//! on the positive x-axis and turning counter-clockwise through `[0, 2π)`.
//! No angle is ever computed: the plane is cut into two half-planes along
//! the x-axis, and inside one half-plane the sign of a cross product decides.
//! Points that share a direction are separated by a tie-break, and the
//! origin, which has no direction, is placed by a policy.

use crate::vector2::{cross, cross_spec, is_origin, norm2, norm2_spec};
use std::cmp::Ordering;
use vstd::prelude::*;

verus! {

/// Where the origin `(0, 0)` goes among points that have a direction.
#[derive(Debug, Clone, Copy, PartialEq, Eq, Structural)]
pub enum OriginPolicy {
    /// The origin sorts before every other point.
    First,
    /// The origin sorts after every other point.
    Last,
    /// The origin must not occur; comparing it is an error.
    Forbid,
}

/// How two distinct points with the same direction are ordered.
#[derive(Debug, Clone, Copy, PartialEq, Eq, Structural)]
pub enum TieBreak {
    /// The point nearer to the origin comes first.
    Norm2Asc,
    /// The point with the lexicographically smaller `(x, y)` comes first.
    Lex,
}

/// The two choices that fix an angular order.
#[derive(Debug, Clone, Copy, PartialEq, Eq, Structural)]
pub struct ArgSortOptions {
    pub origin: OriginPolicy,
    pub tie: TieBreak,
}

/// The only failure of an angular comparison.
#[derive(Debug, Clone, Copy, PartialEq, Eq, Structural)]
pub enum ArgSortError {
    /// The origin took part in a comparison under [`OriginPolicy::Forbid`].
    OriginForbidden,
}

impl ArgSortOptions {
    /// The options that never fail: origin last, nearer point first.
    pub open spec fn default_spec() -> ArgSortOptions {
        ArgSortOptions { origin: OriginPolicy::Last, tie: TieBreak::Norm2Asc }
    }
}

impl Default for ArgSortOptions {
    fn default() -> (r: Self)
        ensures
            r == ArgSortOptions::default_spec(),
    {
        ArgSortOptions { origin: OriginPolicy::Last, tie: TieBreak::Norm2Asc }
    }
}

/// The half-plane of directions in `[0, π)`: above the x-axis, or on its
/// non-negative part.
pub open spec fn upper_half_spec(p: (i64, i64)) -> bool {
    p.1 > 0 || (p.1 == 0 && p.0 >= 0)
}

/// Whether `a` precedes `b` among points of one direction.
pub open spec fn tie_before(a: (i64, i64), b: (i64, i64), tie: TieBreak) -> bool {
    match tie {
        TieBreak::Norm2Asc => norm2_spec(a) < norm2_spec(b),
        TieBreak::Lex => a.0 < b.0 || (a.0 == b.0 && a.1 < b.1),
    }
}

/// Whether `a` and `b` may be compared under `opt`: always, unless the
/// origin is forbidden and one of them is the origin.
pub open spec fn comparable(a: (i64, i64), b: (i64, i64), opt: ArgSortOptions) -> bool {
    opt.origin is Forbid ==> !is_origin(a) && !is_origin(b)
}

/// The strict angular order: whether `a` comes before `b`.
///
/// Decided by the first of four criteria that tells the points apart:
/// the origin policy, the half-plane (upper before lower), the turn from
/// `a` to `b` (counter-clockwise means `a` is first), the tie-break.
pub open spec fn arg_before(a: (i64, i64), b: (i64, i64), opt: ArgSortOptions) -> bool {
    if is_origin(a) || is_origin(b) {
        match opt.origin {
            OriginPolicy::First => is_origin(a) && !is_origin(b),
            OriginPolicy::Last => !is_origin(a) && is_origin(b),
            OriginPolicy::Forbid => false,
        }
    } else if upper_half_spec(a) != upper_half_spec(b) {
        upper_half_spec(a)
    } else if cross_spec(a, b) != 0 {
        cross_spec(a, b) > 0
    } else {
        tie_before(a, b, opt.tie)
    }
}

/// The three-way angular comparison of `a` with `b`.
pub open spec fn arg_order(a: (i64, i64), b: (i64, i64), opt: ArgSortOptions) -> Ordering {
    if arg_before(a, b, opt) {
        Ordering::Less
    } else if arg_before(b, a, opt) {
        Ordering::Greater
    } else {
        Ordering::Equal
    }
}

/// Tells whether `p` lies in the upper half-plane, the positive x-axis and
/// the origin included.
pub fn upper_half(p: (i64, i64)) -> (r: bool)
    ensures
        r == upper_half_spec(p),
{
    p.1 > 0 || (p.1 == 0 && p.0 >= 0)
}

/// Compares two points of one direction by the tie-break rule.
fn tie_order(a: (i64, i64), b: (i64, i64), tie: TieBreak) -> (r: Ordering)
    ensures
        r == (if tie_before(a, b, tie) {
            Ordering::Less
        } else if tie_before(b, a, tie) {
            Ordering::Greater
        } else {
            Ordering::Equal
        }),
{
    match tie {
        TieBreak::Norm2Asc => {
            let na = norm2(a);
            let nb = norm2(b);
            if na < nb {
                Ordering::Less
            } else if na > nb {
                Ordering::Greater
            } else {
                Ordering::Equal
            }
        },
        TieBreak::Lex => {
            if a.0 < b.0 {
                Ordering::Less
            } else if a.0 > b.0 {
                Ordering::Greater
            } else if a.1 < b.1 {
                Ordering::Less
            } else if a.1 > b.1 {
                Ordering::Greater
            } else {
                Ordering::Equal
            }
        },
    }
}

/// Compares two flags, `false` before `true`.
fn flag_order(x: bool, y: bool) -> (r: Ordering)
    ensures
        r == (if !x && y {
            Ordering::Less
        } else if x && !y {
            Ordering::Greater
        } else {
            Ordering::Equal
        }),
{
    if x == y {
        Ordering::Equal
    } else if y {
        Ordering::Less
    } else {
        Ordering::Greater
    }
}

/// Compares two points that both have a direction.
fn direction_order(a: (i64, i64), b: (i64, i64), opt: ArgSortOptions) -> (r: Ordering)
    requires
        !is_origin(a),
        !is_origin(b),
    ensures
        r == arg_order(a, b, opt),
{
    let ha = upper_half(a);
    let hb = upper_half(b);
    if ha != hb {
        return if ha {
            Ordering::Less
        } else {
            Ordering::Greater
        };
    }
    let cr = cross(a, b);
    proof {
        crate::vector2::lemma_cross_antisymmetric(a, b);
    }
    if cr > 0 {
        Ordering::Less
    } else if cr < 0 {
        Ordering::Greater
    } else {
        tie_order(a, b, opt.tie)
    }
}

/// Compares `a` with `b` in the angular order fixed by `opt`.
///
/// The origin may take part only where the policy places it.
pub fn cmp_by_argument_i64(a: (i64, i64), b: (i64, i64), opt: ArgSortOptions) -> (r: Ordering)
    requires
        comparable(a, b, opt),
    ensures
        r == arg_order(a, b, opt),
{
    let a0 = a.0 == 0 && a.1 == 0;
    let b0 = b.0 == 0 && b.1 == 0;
    if a0 || b0 {
        return match opt.origin {
            OriginPolicy::First => flag_order(b0, a0),
            OriginPolicy::Last => flag_order(a0, b0),
            OriginPolicy::Forbid => vstd::pervasive::unreached(),
        };
    }
    direction_order(a, b, opt)
}

/// Compares `a` with `b`, or reports that the origin was given although
/// the policy forbids it.
pub fn try_cmp_by_argument_i64(a: (i64, i64), b: (i64, i64), opt: ArgSortOptions) -> (r: Result<
    Ordering,
    ArgSortError,
>)
    ensures
        r is Ok <==> comparable(a, b, opt),
        r is Ok ==> r->Ok_0 == arg_order(a, b, opt),
        r is Err ==> r->Err_0 == ArgSortError::OriginForbidden,
{
    let a0 = a.0 == 0 && a.1 == 0;
    let b0 = b.0 == 0 && b.1 == 0;
    match opt.origin {
        OriginPolicy::Forbid => {
            if a0 || b0 {
                return Err(ArgSortError::OriginForbidden);
            }
        },
        _ => {},
    }
    Ok(cmp_by_argument_i64(a, b, opt))
}

/// Compares `a` with `b` under the default options: the origin is last and
/// the nearer of two points in one direction is first.
pub fn cmp_by_argument_default_i64(a: (i64, i64), b: (i64, i64)) -> (r: Ordering)
    ensures
        r == arg_order(a, b, ArgSortOptions::default_spec()),
{
    cmp_by_argument_i64(a, b, ArgSortOptions::default())
}

} // verus!
