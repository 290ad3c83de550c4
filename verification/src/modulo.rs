//! Modular exponentiation by repeated squaring.

use crate::combination::is_inverse;
use crate::fermat::lemma_inverse_by_power;
use crate::prime::is_prime_spec;
use vstd::arithmetic::div_mod::lemma_mul_mod_noop_left;
use vstd::arithmetic::power::{
    lemma_pow0, lemma_pow1, lemma_pow_adds, lemma_pow_mod_noop, lemma_pow_multiplies,
    lemma_square_is_pow2, pow,
};
use vstd::prelude::*;

verus! {

/// What [`mod_pow`] returns: `base^exp mod modulo`, where the power with
/// exponent zero is left as the unreduced `1`.
pub open spec fn mod_pow_spec(base: nat, exp: nat, modulo: nat) -> nat {
    if exp == 0 {
        1
    } else {
        (pow(base as int, exp) % (modulo as int)) as nat
    }
}

/// A power with exponent `2 * half + odd` splits into the power of the
/// square with exponent `half`, times the base if `odd` is one.
proof fn lemma_pow_halves(base: int, half: nat, odd: nat)
    requires
        odd <= 1,
    ensures
        pow(base, 2 * half + odd) == pow(base * base, half) * (if odd == 1 {
            base
        } else {
            1
        }),
{
    lemma_square_is_pow2(base);
    lemma_pow_multiplies(base, 2, half);
    lemma_pow_adds(base, 2 * half, odd);
    lemma_pow0(base);
    lemma_pow1(base);
    assert(pow(base * base, half) * 1 == pow(base * base, half)) by (nonlinear_arith);
}

/// Computes `base^exp mod modulo` with `O(log exp)` multiplications.
///
/// The squares that are formed on the way must fit a `usize`: that of
/// `base` for an exponent above 0, that of `modulo - 1` for one above 1.
pub fn mod_pow(base: usize, exp: usize, modulo: usize) -> (r: usize)
    requires
        exp > 0 ==> modulo > 0 && base * base <= usize::MAX,
        exp > 1 ==> (modulo - 1) * (modulo - 1) <= usize::MAX,
    ensures
        r == mod_pow_spec(base as nat, exp as nat, modulo as nat),
        r < modulo || (r == 1 && exp == 0),
    decreases exp,
{
    if exp == 0 {
        return 1;
    }
    let square = base * base % modulo;
    proof {
        assert(square * square <= (modulo - 1) * (modulo - 1)) by (nonlinear_arith)
            requires
                0 <= square <= modulo - 1,
        ;
    }
    let mut result = mod_pow(square, exp / 2, modulo);
    proof {
        let (b, m) = (base as int, modulo as int);
        let half = (exp / 2) as nat;
        let odd = (exp % 2) as nat;
        lemma_pow_halves(b, half, odd);
        lemma_pow_mod_noop(b * b, half, m);
        if half == 0 {
            lemma_pow0(b * b);
        }
        // Now `result` agrees with `pow(b * b, half)` modulo `m`, or is that power itself.
        if odd == 1 {
            lemma_mul_mod_noop_left(pow(b * b, half), b, m);
            if half > 0 {
                assert(result * base <= usize::MAX) by (nonlinear_arith)
                    requires
                        0 <= result <= modulo - 1,
                        0 <= base,
                        base * base <= usize::MAX,
                        (modulo - 1) * (modulo - 1) <= usize::MAX,
                ;
            } else {
                assert(1 * base == base);
            }
        } else {
            assert(pow(b * b, half) * 1 == pow(b * b, half)) by (nonlinear_arith);
        }
    }
    if exp % 2 == 1 {
        result *= base;
        result %= modulo;
    }
    result
}

/// Computes `num^(modulo - 2) mod modulo`, which for a prime `modulo` that
/// does not divide `num` is the inverse of `num`, by Fermat's little
/// theorem.
pub fn mod_inv(num: usize, modulo: usize) -> (r: usize)
    requires
        modulo >= 2,
        modulo > 2 ==> num * num <= usize::MAX,
        modulo > 3 ==> (modulo - 1) * (modulo - 1) <= usize::MAX,
    ensures
        r == mod_pow_spec(num as nat, (modulo - 2) as nat, modulo as nat),
        is_prime_spec(modulo as nat) && num % modulo != 0 ==> r < modulo && is_inverse(
            r as int,
            num as int,
            modulo as int,
        ),
{
    proof {
        if is_prime_spec(modulo as nat) && num % modulo != 0 {
            if modulo == 2 {
                assert(1 * num == num);
            } else {
                lemma_inverse_by_power(num as nat, modulo as nat);
            }
        }
    }
    mod_pow(num, modulo - 2, modulo)
}

} // verus!
