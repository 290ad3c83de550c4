//! Primes, sieves and factorisations.

use vstd::arithmetic::div_mod::{
    lemma_fundamental_div_mod, lemma_fundamental_div_mod_converse_mod,
    lemma_mod_multiples_vanish, lemma_small_mod,
};
use vstd::arithmetic::power::{lemma_pow0, lemma_pow1, lemma_pow_adds, lemma_pow_positive, pow};
use vstd::prelude::*;

verus! {

/// Whether `n` is a prime number: at least 2 and divisible by no number
/// strictly between 1 and itself.
pub open spec fn is_prime_spec(n: nat) -> bool {
    n >= 2 && forall|d: nat| 2 <= d < n ==> #[trigger] (n % d) != 0
}

/// Whether no number from 2 up to, but not including, `bound` divides `n`.
pub open spec fn no_divisor_below(n: nat, bound: nat) -> bool {
    forall|d: nat| 2 <= d < bound ==> #[trigger] (n % d) != 0
}

/// If `d` divides `n`, so does the cofactor `n / d`, and their product is `n`.
pub proof fn lemma_cofactor(n: nat, d: nat)
    requires
        d > 0,
        n % d == 0,
    ensures
        d * (n / d) == n,
        n > 0 ==> n / d > 0 && n % (n / d) == 0,
{
    let q = n / d;
    lemma_fundamental_div_mod(n as int, d as int);
    if n > 0 {
        assert(q > 0) by (nonlinear_arith)
            requires
                n == d * q,
                n > 0,
                q >= 0,
        ;
        assert(n == d * q + 0);
        assert(n == q * d + 0) by (nonlinear_arith)
            requires
                n == d * q,
        ;
        lemma_fundamental_div_mod_converse_mod(n as int, q as int, d as int, 0);
    }
}

/// Divisibility passes on: a divisor of a divisor of `n` divides `n`.
pub proof fn lemma_divides_transitive(d: nat, m: nat, n: nat)
    requires
        d > 0,
        m > 0,
        m % d == 0,
        n % m == 0,
    ensures
        n % d == 0,
{
    lemma_fundamental_div_mod(m as int, d as int);
    lemma_fundamental_div_mod(n as int, m as int);
    let (a, b) = (m / d, n / m);
    assert(n == (a * b) * d + 0) by (nonlinear_arith)
        requires
            m == d * a,
            n == m * b,
    ;
    lemma_fundamental_div_mod_converse_mod(n as int, d as int, (a * b) as int, 0);
}

/// Once `bound` exceeds `n / bound`, its square exceeds `n`.
pub proof fn lemma_past_square_root(n: nat, bound: nat)
    requires
        bound > 0,
        bound > n / bound,
    ensures
        bound * bound > n,
{
    lemma_fundamental_div_mod(n as int, bound as int);
    let (q, r) = (n / bound, n % bound);
    assert(bound * bound > n) by (nonlinear_arith)
        requires
            n == bound * q + r,
            0 <= r < bound,
            bound > q,
            q >= 0,
    ;
}

/// Trial division may stop at the square root: a number without a divisor
/// below a bound whose square exceeds it has no proper divisor at all.
pub proof fn lemma_trial_division(n: nat, bound: nat)
    requires
        bound * bound > n,
        no_divisor_below(n, bound),
    ensures
        no_divisor_below(n, n),
{
    assert forall|d: nat| 2 <= d < n implies #[trigger] (n % d) != 0 by {
        if n % d == 0 && d >= bound {
            let q = n / d;
            lemma_cofactor(n, d);
            assert(q < bound) by (nonlinear_arith)
                requires
                    d * q == n,
                    d >= bound,
                    bound * bound > n,
                    q >= 0,
            ;
            assert(q >= 2) by (nonlinear_arith)
                requires
                    d * q == n,
                    d < n,
                    q > 0,
            ;
            assert(n % q != 0);
        }
    }
}

/// Tells whether `n` is prime, by trial division up to its square root.
pub fn is_prime(n: usize) -> (r: bool)
    ensures
        r == is_prime_spec(n as nat),
{
    if n <= 1 {
        return false;
    }
    let mut i: usize = 2;
    while i <= n / i
        invariant
            n >= 2,
            2 <= i <= n,
            no_divisor_below(n as nat, i as nat),
        decreases n - i,
    {
        if n % i == 0 {
            proof {
                lemma_root_candidate_is_proper(n as nat, i as nat);
            }
            return false;
        }
        proof {
            lemma_root_candidate_is_proper(n as nat, i as nat);
        }
        i += 1;
    }
    proof {
        lemma_past_square_root(n as nat, i as nat);
        lemma_trial_division(n as nat, i as nat);
    }
    true
}

/// While `bound` does not exceed `n / bound`, it is below `n`, unless both
/// are 1.
proof fn lemma_root_candidate_is_proper(n: nat, bound: nat)
    requires
        bound >= 2,
        bound <= n / bound,
    ensures
        bound < n,
{
    lemma_fundamental_div_mod(n as int, bound as int);
    let (q, r) = (n / bound, n % bound);
    assert(bound < n) by (nonlinear_arith)
        requires
            n == bound * q + r,
            r >= 0,
            q >= bound,
            bound >= 2,
    ;
}

/// Whether no number from 2 up to, but not including, `bound` is a proper
/// divisor of `k`.
pub open spec fn sieved(k: nat, bound: nat) -> bool {
    forall|d: nat| 2 <= d < bound && d < k ==> #[trigger] (k % d) != 0
}

/// Between two consecutive multiples of `step` there is no multiple of it.
proof fn lemma_between_multiples(j: nat, k: nat, step: nat)
    requires
        step > 0,
        j % step == 0,
        j < k < j + step,
    ensures
        k % step != 0,
{
    lemma_fundamental_div_mod(j as int, step as int);
    lemma_mod_multiples_vanish((j / step) as int, (k - j) as int, step as int);
    lemma_small_mod((k - j) as nat, step);
}

/// The next multiple of `step` after the multiple `j`.
proof fn lemma_next_multiple(j: nat, step: nat)
    requires
        step > 0,
        j % step == 0,
    ensures
        (j + step) % step == 0,
{
    lemma_fundamental_div_mod(j as int, step as int);
    lemma_mod_multiples_vanish((j / step + 1) as int, 0, step as int);
    assert(step * (j / step + 1) + 0 == j + step) by (nonlinear_arith)
        requires
            j == step * (j / step),
    ;
    lemma_small_mod(0, step);
}

/// Sieving by one more number: `k` survives the bound `i + 1` exactly when
/// it survives the bound `i` and is not a proper multiple of `i`.
proof fn lemma_sieved_step(k: nat, i: nat)
    requires
        i >= 2,
    ensures
        sieved(k, i + 1) <==> sieved(k, i) && !(i < k && k % i == 0),
{
    if sieved(k, i) && !(i < k && k % i == 0) {
        assert forall|d: nat| 2 <= d < i + 1 && d < k implies #[trigger] (k % d) != 0 by {
            if d < i {
                assert(k % d != 0);
            }
        }
    }
    if sieved(k, i + 1) {
        assert(sieved(k, i));
        if i < k {
            assert(k % i != 0);
        }
    }
}

/// A proper multiple of a number that failed the sieve failed it too.
proof fn lemma_multiple_of_composite(k: nat, i: nat)
    requires
        i >= 2,
        !sieved(i, i),
        i < k,
        k % i == 0,
    ensures
        !sieved(k, i),
{
    let d = choose|d: nat| 2 <= d < i && d < i && #[trigger] (i % d) == 0;
    lemma_divides_transitive(d, i, k);
}

/// Lists the primes up to `n` in ascending order, by the sieve of
/// Eratosthenes.
pub fn eratosthenes_sieve(n: usize) -> (primes: Vec<usize>)
    requires
        1 <= n,
        2 * n <= usize::MAX,
    ensures
        forall|a: int, b: int| 0 <= a < b < primes@.len() ==> primes@[a] < primes@[b],
        forall|a: int|
            0 <= a < primes@.len() ==> is_prime_spec(#[trigger] primes@[a] as nat) && primes@[a]
                <= n,
        forall|p: usize| is_prime_spec(p as nat) && p <= n ==> primes@.contains(p),
{
    let mut primes: Vec<usize> = Vec::new();
    let mut flags: Vec<bool> = vec![true; n + 1];
    flags[0] = false;
    flags[1] = false;
    let mut i: usize = 2;
    while i <= n
        invariant
            2 <= i <= n + 1,
            2 * n <= usize::MAX,
            flags@.len() == n + 1,
            forall|k: int| 2 <= k <= n ==> (#[trigger] flags@[k] <==> sieved(k as nat, i as nat)),
            forall|a: int, b: int| 0 <= a < b < primes@.len() ==> primes@[a] < primes@[b],
            forall|a: int|
                0 <= a < primes@.len() ==> is_prime_spec(#[trigger] primes@[a] as nat)
                    && primes@[a] < i,
            forall|p: usize| is_prime_spec(p as nat) && p < i ==> primes@.contains(p),
        decreases n + 1 - i,
    {
        let ghost old_primes = primes@;
        if flags[i] {
            primes.push(i);
            proof {
                assert(sieved(i as nat, i as nat));
                assert(is_prime_spec(i as nat));
                assert(primes@[primes@.len() - 1] == i);
            }
            let mut j: usize = i * 2;
            proof {
                lemma_small_mod(0, i as nat);
                lemma_next_multiple(0, i as nat);
                lemma_next_multiple(i as nat, i as nat);
                assert forall|k: int| 2 <= k <= n implies (#[trigger] flags@[k] <==> sieved(
                    k as nat,
                    i as nat,
                ) && !(i < k < j && k % (i as int) == 0)) by {
                    if i < k < j {
                        lemma_between_multiples(i as nat, k as nat, i as nat);
                    }
                }
            }
            while j <= n
                invariant
                    2 <= i <= n,
                    2 * n <= usize::MAX,
                    flags@.len() == n + 1,
                    2 * i <= j <= n + i,
                    j as nat % i as nat == 0,
                    forall|k: int|
                        2 <= k <= n ==> (#[trigger] flags@[k] <==> sieved(k as nat, i as nat) && !(i
                            < k < j && k % (i as int) == 0)),
                decreases n + i - j,
            {
                let ghost before = flags@;
                flags[j] = false;
                proof {
                    lemma_next_multiple(j as nat, i as nat);
                    assert forall|k: int| 2 <= k <= n implies (#[trigger] flags@[k] <==> sieved(
                        k as nat,
                        i as nat,
                    ) && !(i < k < j + i && k % (i as int) == 0)) by {
                        assert(before[k] <==> sieved(k as nat, i as nat) && !(i < k < j && k % (
                        i as int) == 0));
                        if j < k < j + i {
                            lemma_between_multiples(j as nat, k as nat, i as nat);
                        }
                    }
                }
                j += i;
            }
            proof {
                assert forall|k: int| 2 <= k <= n implies (#[trigger] flags@[k] <==> sieved(
                    k as nat,
                    (i + 1) as nat,
                )) by {
                    lemma_sieved_step(k as nat, i as nat);
                }
            }
        } else {
            proof {
                assert(!sieved(i as nat, i as nat));
                assert(!is_prime_spec(i as nat));
                assert forall|k: int| 2 <= k <= n implies (#[trigger] flags@[k] <==> sieved(
                    k as nat,
                    (i + 1) as nat,
                )) by {
                    lemma_sieved_step(k as nat, i as nat);
                    if i < k && k % (i as int) == 0 {
                        lemma_multiple_of_composite(k as nat, i as nat);
                    }
                }
            }
        }
        proof {
            assert forall|p: usize| is_prime_spec(p as nat) && p < i + 1 implies primes@.contains(
                p,
            ) by {
                if p < i {
                    assert(old_primes.contains(p));
                    let a = choose|a: int| 0 <= a < old_primes.len() && old_primes[a] == p;
                    assert(primes@[a] == p);
                } else {
                    assert(primes@[primes@.len() - 1] == p);
                }
            }
        }
        i += 1;
    }
    primes
}

/// The product of the prime powers `p^e` listed as pairs `(p, e)`.
pub open spec fn factor_product(factors: Seq<(usize, usize)>) -> int
    decreases factors.len(),
{
    if factors.len() == 0 {
        1
    } else {
        factor_product(factors.drop_last()) * pow(factors.last().0 as int, factors.last().1 as nat)
    }
}

/// Whether `factors` lists powers of primes, the primes ascending and every
/// exponent positive.
pub open spec fn is_factorization(factors: Seq<(usize, usize)>) -> bool {
    &&& forall|a: int|
        0 <= a < factors.len() ==> is_prime_spec((#[trigger] factors[a]).0 as nat) && factors[a].1
            >= 1
    &&& forall|a: int, b: int| 0 <= a < b < factors.len() ==> factors[a].0 < factors[b].0
}

/// What is left of `n` after a divisor was divided out still has no small
/// divisor.
proof fn lemma_quotient_keeps_sieve(n: nat, q: nat, c: nat, bound: nat)
    requires
        q > 0,
        n == q * c,
        no_divisor_below(n, bound),
    ensures
        no_divisor_below(q, bound),
{
    assert forall|d: nat| 2 <= d < bound implies #[trigger] (q % d) != 0 by {
        if q % d == 0 {
            assert(n == c * q + 0) by (nonlinear_arith)
                requires
                    n == q * c,
            ;
            lemma_fundamental_div_mod_converse_mod(n as int, q as int, c as int, 0);
            lemma_divides_transitive(d, q, n);
            assert(n % d != 0);
        }
    }
}

/// The least divisor above 1 of a number is prime.
proof fn lemma_least_divisor_is_prime(n: nat, i: nat)
    requires
        i >= 2,
        n % i == 0,
        no_divisor_below(n, i),
    ensures
        is_prime_spec(i),
{
    assert forall|d: nat| 2 <= d < i implies #[trigger] (i % d) != 0 by {
        if i % d == 0 {
            lemma_divides_transitive(d, i, n);
            assert(n % d != 0);
        }
    }
}

/// Factorises `n` into powers of primes, the primes ascending.
///
/// The product of the powers is `n`; for `n == 0`, which has no
/// factorisation, the single pair `(0, 1)` is returned.
pub fn prime_factors(n: usize) -> (factors: Vec<(usize, usize)>)
    ensures
        n >= 1 ==> is_factorization(factors@) && factor_product(factors@) == n,
        n == 0 ==> factors@ == seq![(0usize, 1usize)],
{
    let mut rest = n;
    let mut factors: Vec<(usize, usize)> = Vec::new();
    let mut i: usize = 2;
    proof {
        assert(rest * 1 == n) by (nonlinear_arith)
            requires
                rest == n,
        ;
    }
    while i <= n / i
        invariant
            2 <= i <= n + 2,
            n == 0 ==> rest == 0 && factors@.len() == 0,
            n >= 1 ==> rest >= 1,
            rest * factor_product(factors@) == n,
            no_divisor_below(rest as nat, i as nat),
            is_factorization(factors@),
            forall|a: int| 0 <= a < factors@.len() ==> (#[trigger] factors@[a]).0 < i,
        decreases n + 2 - i,
    {
        proof {
            lemma_root_candidate_is_proper(n as nat, i as nat);
        }
        if rest % i == 0 {
            let ghost start = rest;
            let ghost listed = factors@;
            let mut count: usize = 0;
            proof {
                lemma_pow0(i as int);
                lemma_least_divisor_is_prime(rest as nat, i as nat);
            }
            while rest % i == 0
                invariant
                    i >= 2,
                    rest >= 1,
                    rest * pow(i as int, count as nat) == start,
                    count + rest <= start,
                decreases rest,
            {
                proof {
                    lemma_cofactor(rest as nat, i as nat);
                    let q = rest / i;
                    lemma_pow_adds(i as int, count as nat, 1);
                    lemma_pow1(i as int);
                    assert(q * (pow(i as int, count as nat) * i) == (i * q) * pow(
                        i as int,
                        count as nat,
                    )) by (nonlinear_arith);
                    assert(q < rest) by (nonlinear_arith)
                        requires
                            i * q == rest,
                            i >= 2,
                            q > 0,
                    ;
                }
                count += 1;
                rest /= i;
            }
            factors.push((i, count));
            proof {
                let power = pow(i as int, count as nat);
                lemma_pow_positive(i as int, count as nat);
                lemma_quotient_keeps_sieve(start as nat, rest as nat, power as nat, i as nat);
                assert(factors@.drop_last() =~= listed);
                assert(rest * (factor_product(listed) * power) == (rest * power) * factor_product(
                    listed,
                )) by (nonlinear_arith);
                assert(count >= 1) by {
                    if count == 0 {
                        assert(start % i == 0);
                    }
                }
            }
        }
        proof {
            assert forall|d: nat| 2 <= d < i + 1 implies #[trigger] (rest as nat % d) != 0 by {
                if d == i {
                    assert(rest as nat % i as nat != 0);
                }
            }
        }
        i += 1;
    }
    if rest != 1 {
        let ghost listed = factors@;
        factors.push((rest, 1));
        proof {
            assert(factors@.drop_last() =~= listed);
            lemma_pow1(rest as int);
            if n >= 1 {
                lemma_past_square_root(n as nat, i as nat);
                assert(rest <= n) by (nonlinear_arith)
                    requires
                        rest * factor_product(listed) == n,
                        rest >= 1,
                        n >= 1,
                ;
                lemma_trial_division_bounded(rest as nat, i as nat, n as nat);
                assert(rest >= i) by {
                    if rest < i {
                        lemma_small_mod(0, rest as nat);
                        assert(rest as nat % rest as nat == 0) by {
                            vstd::arithmetic::div_mod::lemma_mod_self_0(rest as int);
                        }
                    }
                }
                assert(factor_product(factors@) == factor_product(listed) * rest);
                assert(factor_product(listed) * rest == rest * factor_product(listed))
                    by (nonlinear_arith);
                assert(is_factorization(factors@));
            } else {
                assert(factors@ =~= seq![(0usize, 1usize)]);
            }
        }
    } else {
        proof {
            assert(1 * factor_product(factors@) == factor_product(factors@)) by (nonlinear_arith);
        }
    }
    factors
}

/// [`lemma_trial_division`] for a number that was reduced below the number
/// whose square root bounds the trial.
proof fn lemma_trial_division_bounded(rest: nat, bound: nat, n: nat)
    requires
        rest >= 2,
        rest <= n,
        bound * bound > n,
        no_divisor_below(rest, bound),
    ensures
        is_prime_spec(rest),
{
    lemma_trial_division(rest, bound);
}

/// Whether `d` is a divisor of `n` between 1 and `n`.
pub open spec fn is_divisor(d: nat, n: nat) -> bool {
    1 <= d <= n && n % d == 0
}

/// Puts `v` in ascending order with `sort` of the standard library.
///
/// Taken on trust from its documentation: the slice is sorted in ascending
/// order, and sorting only rearranges, so every value stays as often as it
/// was there.
#[verifier::external_body]
fn sort_ascending(v: &mut Vec<usize>)
    ensures
        final(v)@.to_multiset() == old(v)@.to_multiset(),
        forall|i: int, j: int| 0 <= i <= j < final(v)@.len() ==> final(v)@[i] <= final(v)@[j],
{
    v.sort();
}

/// A divisor `d` of `n` is the quotient of `n` by its cofactor.
proof fn lemma_cofactor_of_cofactor(n: nat, d: nat)
    requires
        n >= 1,
        d >= 1,
        n % d == 0,
    ensures
        n / d >= 1,
        n / (n / d) == d,
        n / d <= n,
{
    let q = n / d;
    lemma_cofactor(n, d);
    assert(n == q * d + 0) by (nonlinear_arith)
        requires
            d * q == n,
    ;
    vstd::arithmetic::div_mod::lemma_fundamental_div_mod_converse_div(
        n as int,
        q as int,
        d as int,
        0,
    );
    assert(q <= n) by (nonlinear_arith)
        requires
            d * q == n,
            d >= 1,
            q >= 0,
    ;
}

/// Whether the divisor `d` of `n` is met by a trial that has gone through
/// the candidates below `i`: either it or its cofactor is below `i`.
spec fn met_below(d: nat, n: nat, i: nat) -> bool {
    is_divisor(d, n) && (d < i || n / d < i)
}

/// Lists the divisors of `n` in ascending order; none for `n == 0`.
pub fn divisors(n: usize) -> (found: Vec<usize>)
    ensures
        forall|a: int, b: int| 0 <= a < b < found@.len() ==> found@[a] < found@[b],
        forall|d: usize| found@.contains(d) <==> is_divisor(d as nat, n as nat),
{
    let mut found: Vec<usize> = Vec::new();
    let mut i: usize = 1;
    proof {
        assert forall|d: usize| !met_below(d as nat, n as nat, 1) by {
            if is_divisor(d as nat, n as nat) {
                lemma_cofactor(n as nat, d as nat);
            }
        }
    }
    while i <= n / i
        invariant
            1 <= i <= n + 1,
            found@.no_duplicates(),
            forall|d: usize| found@.contains(d) <==> met_below(d as nat, n as nat, i as nat),
        decreases n + 1 - i,
    {
        let ghost before = found@;
        proof {
            lemma_fundamental_div_mod(n as int, i as int);
            assert(i <= n && i < usize::MAX) by (nonlinear_arith)
                requires
                    n == i * (n / i) + n % i,
                    n % i >= 0,
                    n / i >= i,
                    i >= 1,
                    n <= usize::MAX,
                    usize::MAX >= 2,
            ;
        }
        if n % i == 0 {
            let q = n / i;
            proof {
                lemma_cofactor_of_cofactor(n as nat, i as nat);
                lemma_cofactor(n as nat, i as nat);
            }
            found.push(i);
            if i != q {
                found.push(q);
            }
            proof {
                assert(!before.contains(i));
                assert(!before.contains(q));
                assert forall|d: usize| found@.contains(d) <==> met_below(
                    d as nat,
                    n as nat,
                    (i + 1) as nat,
                ) by {
                    if found@.contains(d) {
                        let a = choose|a: int| 0 <= a < found@.len() && found@[a] == d;
                        if a < before.len() {
                            assert(before.contains(d));
                        }
                    }
                    if met_below(d as nat, n as nat, (i + 1) as nat) {
                        if met_below(d as nat, n as nat, i as nat) {
                            let a = choose|a: int| 0 <= a < before.len() && before[a] == d;
                            assert(found@[a] == d);
                        } else if d == i {
                            assert(found@[before.len() as int] == d);
                        } else {
                            lemma_cofactor_of_cofactor(n as nat, d as nat);
                            assert(d == q);
                            assert(found@[before.len() as int + 1] == d);
                        }
                    }
                }
            }
        } else {
            proof {
                assert forall|d: usize| met_below(d as nat, n as nat, (i + 1) as nat) implies met_below(
                    d as nat,
                    n as nat,
                    i as nat,
                ) by {
                    if d as nat >= i && n as nat / d as nat == i {
                        lemma_cofactor(n as nat, d as nat);
                    }
                }
            }
        }
        i += 1;
    }
    proof {
        lemma_past_square_root(n as nat, i as nat);
        assert forall|d: usize| is_divisor(d as nat, n as nat) implies met_below(
            d as nat,
            n as nat,
            i as nat,
        ) by {
            let q = n as nat / d as nat;
            lemma_cofactor(n as nat, d as nat);
            if d >= i && q >= i {
                assert(d * q >= i * i) by (nonlinear_arith)
                    requires
                        d >= i,
                        q >= i,
                        i >= 1,
                ;
            }
        }
    }
    let ghost unsorted = found@;
    sort_ascending(&mut found);
    proof {
        broadcast use vstd::seq_lib::group_to_multiset_ensures;

        unsorted.lemma_multiset_has_no_duplicates();
        found@.lemma_multiset_has_no_duplicates_conv();
        assert forall|d: usize| found@.contains(d) <==> is_divisor(d as nat, n as nat) by {
            vstd::seq_lib::to_multiset_contains(found@, d);
            vstd::seq_lib::to_multiset_contains(unsorted, d);
        }
    }
    found
}

} // verus!
