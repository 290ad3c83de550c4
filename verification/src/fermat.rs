//! Fermat's little theorem: `a^(p - 1)` is `1` modulo a prime `p` that does
//! not divide `a`.

use crate::combination::{
    binomial, factorial, is_inverse, lemma_binomial_factorials, lemma_binomial_zero,
    lemma_cancel_inverse, lemma_inverse_step,
};
use crate::prime::is_prime_spec;
use vstd::arithmetic::div_mod::{
    lemma_add_mod_noop, lemma_fundamental_div_mod, lemma_mod_multiples_vanish,
    lemma_mul_mod_noop_general, lemma_mul_mod_noop_left, lemma_mul_mod_noop_right,
    lemma_small_mod, lemma_sub_mod_noop,
};
use vstd::arithmetic::power::{lemma_pow0, lemma_pow1, lemma_pow_adds, pow};
use vstd::prelude::*;

verus! {

/// Every number from 1 to `p - 1` has an inverse modulo the prime `p`.
pub proof fn lemma_inverse_exists(p: nat, i: nat) -> (x: int)
    requires
        is_prime_spec(p),
        1 <= i < p,
    ensures
        is_inverse(x, i as int, p as int),
    decreases i,
{
    if i == 1 {
        lemma_small_mod(1, p);
        assert(1 * 1 == 1);
        1
    } else {
        let r = p % i;
        assert(r != 0);
        lemma_fundamental_div_mod(p as int, i as int);
        let v = lemma_inverse_exists(p, r);
        let w = (v * (p as int / i as int)) % (p as int);
        lemma_inverse_step(p as int, i as int, v, w);
        p - w
    }
}

/// A prime that divides a product with a number that it does not divide,
/// divides the other factor.
pub proof fn lemma_prime_divides_factor(p: nat, c: int, a: int)
    requires
        is_prime_spec(p),
        a % (p as int) != 0,
        (c * a) % (p as int) == 0,
    ensures
        c % (p as int) == 0,
{
    let m = p as int;
    let small = a % m;
    let x = lemma_inverse_exists(p, small as nat);
    // c = c * (x * small) = x * (c * a) = 0, all modulo p.
    lemma_cancel_inverse(c, x, small, m);
    lemma_mul_mod_noop_right(c * x, a, m);
    assert(c * (x * small) == (c * x) * small) by (nonlinear_arith);
    assert((c * x) * a == x * (c * a)) by (nonlinear_arith);
    lemma_mul_mod_noop_right(x, c * a, m);
    assert(x * 0 == 0);
    lemma_small_mod(0, p);
}

/// A prime `p` that divides a multiple of `k!` with `k < p` divides the
/// multiplier.
proof fn lemma_prime_passes_factorial(p: nat, c: int, k: nat)
    requires
        is_prime_spec(p),
        k < p,
        (c * factorial(k)) % (p as int) == 0,
    ensures
        c % (p as int) == 0,
    decreases k,
{
    if k == 0 {
        assert(c * 1 == c);
    } else {
        let rest = factorial((k - 1) as nat) as int;
        assert(c * (k * rest) == (c * rest) * k) by (nonlinear_arith);
        lemma_small_mod(k, p);
        lemma_prime_divides_factor(p, c * rest, k as int);
        lemma_prime_passes_factorial(p, c, (k - 1) as nat);
    }
}

/// A prime `p` divides the binomial coefficients `p` over `k` for
/// `0 < k < p`.
pub proof fn lemma_prime_divides_binomial(p: nat, k: nat)
    requires
        is_prime_spec(p),
        0 < k < p,
    ensures
        binomial(p, k) % p == 0,
{
    let m = p as int;
    let c = binomial(p, k) as int;
    let (fk, fr) = (factorial(k) as int, factorial((p - k) as nat) as int);
    lemma_binomial_factorials(p, k);
    assert(factorial(p) == p * factorial((p - 1) as nat));
    lemma_mod_multiples_vanish(factorial((p - 1) as nat) as int, 0, m);
    lemma_small_mod(0, p);
    assert((c * fk * fr) % m == 0);
    assert(c * fk * fr == (c * fk) * fr) by (nonlinear_arith);
    lemma_prime_passes_factorial(p, c * fk, (p - k) as nat);
    lemma_prime_passes_factorial(p, c, k);
}

/// The sum of `binomial(n, k) * a^k` over `k` from 0 to `upto`.
pub open spec fn binomial_sum(a: int, n: nat, upto: nat) -> int
    decreases upto,
{
    if upto == 0 {
        1
    } else {
        binomial_sum(a, n, (upto - 1) as nat) + binomial(n, upto) * pow(a, upto)
    }
}

/// Pascal's rule, summed: `(a + 1)` times the sum for `n - 1` is the sum
/// for `n`, up to one term.
proof fn lemma_binomial_sum_step(a: int, n: nat, upto: nat)
    requires
        n >= 1,
    ensures
        (a + 1) * binomial_sum(a, (n - 1) as nat, upto) == binomial_sum(a, n, upto) + binomial(
            (n - 1) as nat,
            upto,
        ) * pow(a, upto + 1),
    decreases upto,
{
    let m = (n - 1) as nat;
    lemma_pow1(a);
    if upto == 0 {
        assert(binomial(m, 0) == 1 && binomial(n, 0) == 1);
        assert((a + 1) * 1 == 1 + 1 * a) by (nonlinear_arith);
    } else {
        let j = (upto - 1) as nat;
        lemma_binomial_sum_step(a, n, j);
        let (s_m, s_n) = (binomial_sum(a, m, j), binomial_sum(a, n, j));
        let (c_low, c_high) = (binomial(m, j) as int, binomial(m, upto) as int);
        let (x, y) = (pow(a, upto), pow(a, upto + 1));
        lemma_pow_adds(a, upto, 1);
        assert(y == x * a);
        assert(binomial(n, upto) == c_low + c_high);
        assert((a + 1) * (s_m + c_high * x) == (a + 1) * s_m + c_high * (x * a) + c_high * x)
            by (nonlinear_arith);
        assert((c_low + c_high) * x == c_low * x + c_high * x) by (nonlinear_arith);
    }
}

/// The binomial coefficient `n` over `n` is one.
proof fn lemma_binomial_full(n: nat)
    ensures
        binomial(n, n) == 1,
    decreases n,
{
    if n > 0 {
        lemma_binomial_full((n - 1) as nat);
        lemma_binomial_zero((n - 1) as nat, n);
    }
}

/// The binomial theorem for `(a + 1)^n`.
pub proof fn lemma_binomial_theorem(a: int, n: nat)
    ensures
        pow(a + 1, n) == binomial_sum(a, n, n),
    decreases n,
{
    if n == 0 {
        lemma_pow0(a + 1);
    } else {
        let m = (n - 1) as nat;
        lemma_binomial_theorem(a, m);
        lemma_binomial_sum_step(a, n, m);
        lemma_binomial_full(m);
        lemma_binomial_full(n);
        lemma_pow_adds(a + 1, m, 1);
        lemma_pow1(a + 1);
        let s = binomial_sum(a, m, m);
        assert(pow(a + 1, n) == pow(a + 1, m) * (a + 1));
        assert(s * (a + 1) == (a + 1) * s) by (nonlinear_arith);
        assert(1 * pow(a, n) == pow(a, n)) by (nonlinear_arith);
    }
}

/// Modulo a prime `p`, the sum for `(a + 1)^p` keeps only its first term
/// as long as it stops before its last.
proof fn lemma_binomial_sum_vanishes(a: int, p: nat, upto: nat)
    requires
        is_prime_spec(p),
        upto < p,
    ensures
        binomial_sum(a, p, upto) % (p as int) == 1,
    decreases upto,
{
    let m = p as int;
    if upto == 0 {
        lemma_small_mod(1, p);
    } else {
        lemma_binomial_sum_vanishes(a, p, (upto - 1) as nat);
        lemma_prime_divides_binomial(p, upto);
        let c = binomial(p, upto) as int;
        let x = pow(a, upto);
        lemma_mul_mod_noop_left(c, x, m);
        assert(0 * x == 0);
        lemma_small_mod(0, p);
        lemma_add_mod_noop(binomial_sum(a, p, (upto - 1) as nat), c * x, m);
        lemma_small_mod(1, p);
    }
}

/// Modulo a prime `p`, the `p`-th power of a number is the number.
pub proof fn lemma_power_of_prime(a: nat, p: nat)
    requires
        is_prime_spec(p),
    ensures
        pow(a as int, p) % (p as int) == a % p,
    decreases a,
{
    let m = p as int;
    lemma_small_mod(0, p);
    lemma_small_mod(1, p);
    if a == 0 {
        vstd::arithmetic::power::lemma0_pow(p);
    } else {
        let b = (a - 1) as int;
        lemma_power_of_prime((a - 1) as nat, p);
        lemma_binomial_theorem(b, p);
        lemma_binomial_sum_vanishes(b, p, (p - 1) as nat);
        lemma_binomial_full(p);
        // (b + 1)^p = (sum up to p - 1) + b^p = 1 + b = a, all modulo p.
        let head = binomial_sum(b, p, (p - 1) as nat);
        let last = pow(b, p);
        assert(1 * last == last) by (nonlinear_arith);
        assert(pow(a as int, p) == head + last);
        lemma_add_mod_noop(head, last, m);
        lemma_add_mod_noop(1, b, m);
        assert(last % m == b % m);
        assert((head + last) % m == (1 + b % m) % m);
        assert((1 + b) % m == (a as int) % m);
    }
}

/// Fermat's little theorem: modulo a prime `p`, the power `a^(p - 1)` of a
/// number `a` that `p` does not divide is one.
pub proof fn lemma_fermat(a: nat, p: nat)
    requires
        is_prime_spec(p),
        a % p != 0,
    ensures
        pow(a as int, (p - 1) as nat) % (p as int) == 1,
{
    let m = p as int;
    let x = pow(a as int, (p - 1) as nat);
    lemma_power_of_prime(a, p);
    lemma_pow_adds(a as int, (p - 1) as nat, 1);
    lemma_pow1(a as int);
    assert(pow(a as int, p) == x * a);
    // (x - 1) * a = a^p - a is a multiple of p, and p does not divide a.
    lemma_sub_mod_noop(x * a, a as int, m);
    assert((x - 1) * a == x * a - a) by (nonlinear_arith);
    lemma_small_mod(0, p);
    lemma_prime_divides_factor(p, x - 1, a as int);
    lemma_sub_mod_noop(x, 1, m);
    lemma_small_mod(1, p);
    // x mod p and 1 differ by a multiple of p and both lie below p.
    let r = x % m;
    assert((r - 1) % m == 0);
    if r == 0 {
        lemma_small_mod((m - 1) as nat, p);
        lemma_mod_multiples_vanish(-1, m - 1, m);
        assert(m * (-1) + (m - 1) == -1);
    } else {
        lemma_small_mod((r - 1) as nat, p);
    }
}

/// Modulo a prime `p`, the power `a^(p - 2)` is the inverse of a number `a`
/// that `p` does not divide.
pub proof fn lemma_inverse_by_power(a: nat, p: nat)
    requires
        is_prime_spec(p),
        a % p != 0,
    ensures
        is_inverse(pow(a as int, (p - 2) as nat) % (p as int), a as int, p as int),
{
    let m = p as int;
    let y = pow(a as int, (p - 2) as nat);
    lemma_fermat(a, p);
    lemma_pow_adds(a as int, (p - 2) as nat, 1);
    lemma_pow1(a as int);
    lemma_mul_mod_noop_left(y, a as int, m);
}

} // verus!
