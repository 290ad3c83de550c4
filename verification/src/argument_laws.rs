//! The angular order is a strict total order.
//!
//! For fixed options, [`arg_before`] is irreflexive, asymmetric and
//! transitive, and it tells any two different comparable points apart.

use crate::argument_order::{arg_before, arg_order, comparable, upper_half_spec, ArgSortOptions};
use crate::vector2::{cross_spec, is_origin, lemma_cross_antisymmetric, norm2_spec};
use std::cmp::Ordering;
use vstd::prelude::*;

verus! {

/// A direction in the closed upper half-plane that is not on the negative
/// x-axis, given by unbounded coordinates.
spec fn in_upper(x: int, y: int) -> bool {
    y > 0 || (y == 0 && x > 0)
}

/// Within the upper half-plane, "counter-clockwise of, or aligned with"
/// composes: a strict turn anywhere along `a → b → c` is a strict turn
/// from `a` to `c`, and two alignments are an alignment.
proof fn lemma_turns_compose(ax: int, ay: int, bx: int, by: int, cx: int, cy: int)
    requires
        in_upper(ax, ay),
        in_upper(bx, by),
        in_upper(cx, cy),
        ax * by - ay * bx >= 0,
        bx * cy - by * cx >= 0,
    ensures
        ax * cy - ay * cx >= 0,
        (ax * by - ay * bx > 0 || bx * cy - by * cx > 0) ==> ax * cy - ay * cx > 0,
{
    let ab = ax * by - ay * bx;
    let bc = bx * cy - by * cx;
    let ac = ax * cy - ay * cx;
    assert(ac * by == ab * cy + bc * ay) by (nonlinear_arith)
        requires
            ab == ax * by - ay * bx,
            bc == bx * cy - by * cx,
            ac == ax * cy - ay * cx,
    ;
    if by > 0 {
        assert(ab * cy >= 0) by (nonlinear_arith)
            requires
                ab >= 0,
                cy >= 0,
        ;
        assert(bc * ay >= 0) by (nonlinear_arith)
            requires
                bc >= 0,
                ay >= 0,
        ;
        assert(ac >= 0) by (nonlinear_arith)
            requires
                ac * by >= 0,
                by > 0,
        ;
        if ab > 0 || bc > 0 {
            if cy == 0 {
                assert(by * cx > 0) by (nonlinear_arith)
                    requires
                        by > 0,
                        cx > 0,
                ;
                assert(bx * cy == 0) by (nonlinear_arith)
                    requires
                        cy == 0,
                ;
                assert(false);
            }
            if ab > 0 {
                assert(ab * cy > 0) by (nonlinear_arith)
                    requires
                        ab > 0,
                        cy > 0,
                ;
            } else {
                if ay == 0 {
                    assert(ax * by > 0) by (nonlinear_arith)
                        requires
                            ax > 0,
                            by > 0,
                    ;
                    assert(ay * bx == 0) by (nonlinear_arith)
                        requires
                            ay == 0,
                    ;
                    assert(false);
                }
                assert(bc * ay > 0) by (nonlinear_arith)
                    requires
                        bc > 0,
                        ay > 0,
                ;
            }
            assert(ac > 0) by (nonlinear_arith)
                requires
                    ac * by > 0,
                    by > 0,
            ;
        }
    } else {
        assert(ax * by == 0 && by * cx == 0) by (nonlinear_arith)
            requires
                by == 0,
        ;
        assert(ay <= 0) by (nonlinear_arith)
            requires
                -(ay * bx) >= 0,
                bx > 0,
        ;
        assert(ay * bx == 0 && ay * cx == 0) by (nonlinear_arith)
            requires
                ay == 0,
        ;
        assert(ax * cy >= 0) by (nonlinear_arith)
            requires
                ax > 0,
                cy >= 0,
        ;
        if bc > 0 {
            assert(cy > 0) by (nonlinear_arith)
                requires
                    bx * cy > 0,
                    bx > 0,
            ;
            assert(ax * cy > 0) by (nonlinear_arith)
                requires
                    ax > 0,
                    cy > 0,
            ;
        }
    }
}

/// The half-turn `p ↦ -p` carries the lower half-plane onto the upper one
/// and leaves every cross product unchanged.
proof fn lemma_half_turn(ax: int, ay: int, bx: int, by: int)
    ensures
        (-ax) * (-by) - (-ay) * (-bx) == ax * by - ay * bx,
{
    assert((-ax) * (-by) == ax * by) by (nonlinear_arith);
    assert((-ay) * (-bx) == ay * bx) by (nonlinear_arith);
}

/// Two directions of one half-plane, in the turn order used by
/// [`arg_before`]: `a` strictly before `b`, or aligned with it.
spec fn turn_ge(a: (i64, i64), b: (i64, i64)) -> bool {
    cross_spec(a, b) >= 0
}

/// [`lemma_turns_compose`] for points of either half-plane.
proof fn lemma_cross_chain(a: (i64, i64), b: (i64, i64), c: (i64, i64))
    requires
        !is_origin(a),
        !is_origin(b),
        !is_origin(c),
        upper_half_spec(a) == upper_half_spec(b),
        upper_half_spec(b) == upper_half_spec(c),
        turn_ge(a, b),
        turn_ge(b, c),
    ensures
        cross_spec(a, c) >= 0,
        (cross_spec(a, b) > 0 || cross_spec(b, c) > 0) ==> cross_spec(a, c) > 0,
{
    if upper_half_spec(a) {
        lemma_turns_compose(a.0 as int, a.1 as int, b.0 as int, b.1 as int, c.0 as int, c.1 as int);
    } else {
        lemma_half_turn(a.0 as int, a.1 as int, b.0 as int, b.1 as int);
        lemma_half_turn(b.0 as int, b.1 as int, c.0 as int, c.1 as int);
        lemma_half_turn(a.0 as int, a.1 as int, c.0 as int, c.1 as int);
        lemma_turns_compose(-a.0, -a.1, -b.0, -b.1, -c.0, -c.1);
    }
}

/// Two aligned directions of one half-plane at the same distance from the
/// origin are the same point.
proof fn lemma_aligned_same_norm(a: (i64, i64), b: (i64, i64))
    requires
        !is_origin(a),
        !is_origin(b),
        upper_half_spec(a) == upper_half_spec(b),
        cross_spec(a, b) == 0,
        norm2_spec(a) == norm2_spec(b),
    ensures
        a == b,
{
    let ax = a.0 as int;
    let ay = a.1 as int;
    let bx = b.0 as int;
    let by = b.1 as int;
    let (sa, ta, sb, tb) = (ax * ax, ay * ay, bx * bx, by * by);
    let n = sa + ta;
    // Squaring the alignment `ax * by == ay * bx` gives `sa * tb == ta * sb`.
    assert((ax * by) * (ax * by) == sa * tb) by (nonlinear_arith)
        requires
            sa == ax * ax,
            tb == by * by,
    ;
    assert((ay * bx) * (ay * bx) == ta * sb) by (nonlinear_arith)
        requires
            ta == ay * ay,
            sb == bx * bx,
    ;
    assert(sa >= 0 && ta >= 0 && n > 0) by (nonlinear_arith)
        requires
            sa == ax * ax,
            ta == ay * ay,
            n == sa + ta,
            ax != 0 || ay != 0,
    ;
    // With equal norms the squares of the components agree.
    assert(n * (tb - ta) == 0) by (nonlinear_arith)
        requires
            sa * tb == ta * sb,
            n == sa + ta,
            n == sb + tb,
    ;
    assert(tb == ta) by (nonlinear_arith)
        requires
            n * (tb - ta) == 0,
            n > 0,
    ;
    assert((by - ay) * (by + ay) == 0) by (nonlinear_arith)
        requires
            by * by == ay * ay,
    ;
    assert(by == ay || by == -ay) by (nonlinear_arith)
        requires
            (by - ay) * (by + ay) == 0,
    ;
    assert((bx - ax) * (bx + ax) == 0) by (nonlinear_arith)
        requires
            bx * bx == ax * ax,
    ;
    assert(bx == ax || bx == -ax) by (nonlinear_arith)
        requires
            (bx - ax) * (bx + ax) == 0,
    ;
    // One half-plane leaves no room for opposite signs.
    assert(by == ay);
    if ay != 0 && bx == -ax {
        assert(ax == 0) by (nonlinear_arith)
            requires
                ax * ay == ay * (-ax),
                ay != 0,
        ;
    }
}

/// No point comes before itself.
pub proof fn lemma_before_irreflexive(a: (i64, i64), opt: ArgSortOptions)
    ensures
        !arg_before(a, a, opt),
{
    lemma_cross_antisymmetric(a, a);
}

/// If `a` comes before `b`, then `b` does not come before `a`.
pub proof fn lemma_before_asymmetric(a: (i64, i64), b: (i64, i64), opt: ArgSortOptions)
    ensures
        !(arg_before(a, b, opt) && arg_before(b, a, opt)),
{
    lemma_cross_antisymmetric(a, b);
}

/// Of two different comparable points, one comes before the other.
pub proof fn lemma_before_connected(a: (i64, i64), b: (i64, i64), opt: ArgSortOptions)
    requires
        comparable(a, b, opt),
        a != b,
    ensures
        arg_before(a, b, opt) || arg_before(b, a, opt),
{
    lemma_cross_antisymmetric(a, b);
    if !is_origin(a) && !is_origin(b) && upper_half_spec(a) == upper_half_spec(b) && cross_spec(
        a,
        b,
    ) == 0 && opt.tie is Norm2Asc && norm2_spec(a) == norm2_spec(b) {
        lemma_aligned_same_norm(a, b);
    }
}

/// If `a` comes before `b` and `b` before `c`, then `a` comes before `c`.
pub proof fn lemma_before_transitive(
    a: (i64, i64),
    b: (i64, i64),
    c: (i64, i64),
    opt: ArgSortOptions,
)
    requires
        arg_before(a, b, opt),
        arg_before(b, c, opt),
    ensures
        arg_before(a, c, opt),
{
    if !is_origin(a) && !is_origin(b) && !is_origin(c) && upper_half_spec(a) == upper_half_spec(b)
        && upper_half_spec(b) == upper_half_spec(c) {
        lemma_cross_chain(a, b, c);
    }
}

/// The three-way comparison mirrors itself when its operands are
/// exchanged, and it answers `Equal` for two comparable points exactly when
/// they are the same point.
pub proof fn lemma_order_consistent(a: (i64, i64), b: (i64, i64), opt: ArgSortOptions)
    requires
        comparable(a, b, opt),
    ensures
        arg_order(a, b, opt) == Ordering::Less <==> arg_order(b, a, opt) == Ordering::Greater,
        arg_order(a, b, opt) == Ordering::Greater <==> arg_order(b, a, opt) == Ordering::Less,
        arg_order(a, b, opt) == Ordering::Equal <==> a == b,
{
    lemma_before_asymmetric(a, b, opt);
    lemma_before_irreflexive(a, opt);
    if a != b {
        lemma_before_connected(a, b, opt);
    }
}

} // verus!
