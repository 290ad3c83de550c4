//! The sum of the quotients `n / 1 + n / 2 + .. + n / n` in `O(√n)` steps.

use vstd::arithmetic::div_mod::lemma_fundamental_div_mod;
use vstd::prelude::*;

verus! {

/// `n / 1 + n / 2 + .. + n / upto`, every quotient rounded down.
pub open spec fn quotient_sum(n: nat, upto: nat) -> nat
    decreases upto,
{
    if upto == 0 {
        0
    } else {
        quotient_sum(n, (upto - 1) as nat) + n / upto
    }
}

/// The block of divisors that starts at `b` ends at `n / (n / b)`, which is
/// not before `b` and not beyond `n`.
proof fn lemma_block_end(n: nat, b: nat)
    requires
        1 <= b <= n,
    ensures
        n / b >= 1,
        b <= n / (n / b) <= n,
{
    let v = n / b;
    lemma_fundamental_div_mod(n as int, b as int);
    if v == 0 {
        assert(b * v == 0) by (nonlinear_arith)
            requires
                v == 0,
        ;
    }
    let last = n / v;
    lemma_fundamental_div_mod(n as int, v as int);
    assert(last >= b) by (nonlinear_arith)
        requires
            n == v * last + n % v,
            n % v < v,
            n == b * v + n % b,
            n % b >= 0,
            v >= 1,
    ;
    assert(last <= n) by (nonlinear_arith)
        requires
            n == v * last + n % v,
            n % v >= 0,
            v >= 1,
            last >= 0,
    ;
}

/// The divisors from `b` to `n / (n / b)` all give the quotient `n / b`.
proof fn lemma_quotient_block(n: nat, b: nat, k: nat)
    requires
        1 <= b <= n,
        b <= k <= n / (n / b),
    ensures
        n / k == n / b,
{
    let v = n / b;
    let last = n / v;
    lemma_block_end(n, b);
    lemma_fundamental_div_mod(n as int, b as int);
    lemma_fundamental_div_mod(n as int, v as int);
    let q = n / k;
    lemma_fundamental_div_mod(n as int, k as int);
    assert(q >= v) by (nonlinear_arith)
        requires
            n == k * q + n % k,
            n % k < k,
            n == v * last + n % v,
            n % v >= 0,
            k <= last,
            v >= 1,
            k >= 1,
    ;
    assert(q <= v) by (nonlinear_arith)
        requires
            n == k * q + n % k,
            n % k >= 0,
            n == b * v + n % b,
            n % b < b,
            b <= k,
            b >= 1,
    ;
}

/// A block of equal quotients adds its length times the quotient.
proof fn lemma_block_sum(n: nat, b: nat, upto: nat)
    requires
        1 <= b <= n,
        b - 1 <= upto <= n / (n / b),
    ensures
        quotient_sum(n, upto) == quotient_sum(n, (b - 1) as nat) + (n / b) * (upto - b + 1),
    decreases upto,
{
    if upto == b - 1 {
        assert((n / b) * 0 == 0) by (nonlinear_arith);
    } else {
        lemma_block_sum(n, b, (upto - 1) as nat);
        lemma_quotient_block(n, b, upto);
        assert((n / b) * (upto - 1 - b + 1) + n / b == (n / b) * (upto - b + 1))
            by (nonlinear_arith);
    }
}

/// Every quotient is at most `n`, so the sum up to `upto` is at most `n * upto`.
proof fn lemma_quotient_sum_bound(n: nat, upto: nat)
    ensures
        quotient_sum(n, upto) <= n * upto,
    decreases upto,
{
    if upto > 0 {
        lemma_quotient_sum_bound(n, (upto - 1) as nat);
        lemma_fundamental_div_mod(n as int, upto as int);
        let q = n / upto;
        assert(q <= n) by (nonlinear_arith)
            requires
                n == upto * q + n % upto,
                n % upto >= 0,
                upto >= 1,
                q >= 0,
        ;
        assert(n * (upto - 1) + n == n * upto) by (nonlinear_arith);
    } else {
        assert(n * 0 == 0) by (nonlinear_arith);
    }
}

/// Computes `n / 1 + n / 2 + .. + n / n`, where `/` rounds down.
///
/// Divisors with the same quotient are taken together, and there are at
/// most `2 √n` different quotients.
pub fn sum_quotients(n: usize) -> (sum: u128)
    ensures
        sum == quotient_sum(n as nat, n as nat),
{
    let nn: u128 = n as u128;
    let mut res: u128 = 0;
    let mut b: u128 = 1;
    while b <= nn
        invariant
            nn == n,
            1 <= b <= nn + 1,
            res == quotient_sum(n as nat, (b - 1) as nat),
        decreases nn + 1 - b,
    {
        proof {
            lemma_block_end(n as nat, b as nat);
        }
        let v = nn / b;
        let rb = nn / v;
        let len = rb - b + 1;
        proof {
            lemma_block_sum(n as nat, b as nat, rb as nat);
            lemma_quotient_sum_bound(n as nat, rb as nat);
            assert(n * rb <= 0xffff_ffff_ffff_ffff * 0xffff_ffff_ffff_ffff) by (nonlinear_arith)
                requires
                    0 <= n <= 0xffff_ffff_ffff_ffff,
                    0 <= rb <= 0xffff_ffff_ffff_ffff,
            ;
            assert(v * len >= 0) by (nonlinear_arith)
                requires
                    v >= 0,
                    len >= 0,
            ;
        }
        res += v * len;
        b = rb + 1;
    }
    res
}

} // verus!
