//! Exact integer square roots from an approximate one.

use vstd::prelude::*;

verus! {

/// Whether `r` is the integer square root of `n`: the greatest number whose
/// square does not exceed `n`.
pub open spec fn is_floor_sqrt(r: nat, n: nat) -> bool {
    r * r <= n < (r + 1) * (r + 1)
}

/// Whether `estimate` is the integer square root of `n` or exceeds it by one.
pub open spec fn is_sqrt_estimate(estimate: nat, n: nat) -> bool {
    if estimate == 0 {
        n == 0
    } else {
        (estimate - 1) * (estimate - 1) <= n < (estimate + 1) * (estimate + 1)
    }
}

/// The integer square root of `n`, given an estimate that is exact or one
/// too large, such as a rounded floating-point square root.
pub fn floor_sqrt_from_estimate(n: u64, estimate: u64) -> (r: u64)
    requires
        is_sqrt_estimate(estimate as nat, n as nat),
    ensures
        is_floor_sqrt(r as nat, n as nat),
{
    let below = if estimate == 0 {
        0
    } else {
        estimate - 1
    };
    proof {
        if estimate > 0 {
            // (estimate - 1)^2 fits 64 bits, so estimate is at most 2^32.
            assert(below <= 0xffff_ffff) by (nonlinear_arith)
                requires
                    below * below <= n,
                    n <= 0xffff_ffff_ffff_ffff,
                    below >= 0,
            ;
            assert(below * (below + 2) <= 0xffff_ffff_ffff_ffff) by (nonlinear_arith)
                requires
                    0 <= below <= 0xffff_ffff,
            ;
            assert(below * (below + 2) == estimate * estimate - 1) by (nonlinear_arith)
                requires
                    below == estimate - 1,
            ;
            assert((below + 1) * (below + 1) == estimate * estimate) by (nonlinear_arith)
                requires
                    below == estimate - 1,
            ;
        }
    }
    if below * (below + 2) < n {
        estimate
    } else {
        below
    }
}

/// Tells whether `estimate` may be handed to [`floor_sqrt_from_estimate`].
pub fn check_sqrt_estimate(n: u64, estimate: u64) -> (ok: bool)
    ensures
        ok == is_sqrt_estimate(estimate as nat, n as nat),
{
    if estimate == 0 {
        return n == 0;
    }
    if estimate > 0x1_0000_0000 {
        proof {
            assert((estimate - 1) * (estimate - 1) > n) by (nonlinear_arith)
                requires
                    estimate - 1 >= 0x1_0000_0000,
                    n <= 0xffff_ffff_ffff_ffff,
            ;
        }
        return false;
    }
    let below: u128 = (estimate - 1) as u128;
    let above: u128 = estimate as u128 + 1;
    proof {
        assert(below * below <= 0x1_0000_0000 * 0x1_0000_0000) by (nonlinear_arith)
            requires
                0 <= below <= 0x1_0000_0000,
        ;
        assert(above * above <= 0x1_0000_0001 * 0x1_0000_0001) by (nonlinear_arith)
            requires
                0 <= above <= 0x1_0000_0001,
        ;
    }
    below * below <= n as u128 && (n as u128) < above * above
}

} // verus!
