//! Binomial coefficients modulo a prime, from tables of factorials and
//! inverse factorials.

use crate::prime::is_prime_spec;
use vstd::arithmetic::div_mod::{
    lemma_fundamental_div_mod, lemma_mod_multiples_vanish, lemma_mul_mod_noop_general,
    lemma_mul_mod_noop_left, lemma_mul_mod_noop_right, lemma_small_mod, lemma_sub_mod_noop,
};
use vstd::prelude::*;

verus! {

/// `n!`.
pub open spec fn factorial(n: nat) -> nat
    decreases n,
{
    if n == 0 {
        1
    } else {
        n * factorial((n - 1) as nat)
    }
}

/// The binomial coefficient `n` over `k`, by Pascal's rule; `0` where
/// `k > n`.
pub open spec fn binomial(n: nat, k: nat) -> nat
    decreases n,
{
    if k == 0 {
        1
    } else if n == 0 {
        0
    } else {
        binomial((n - 1) as nat, (k - 1) as nat) + binomial((n - 1) as nat, k)
    }
}

/// The product of the `count` consecutive numbers that start at `first`.
pub open spec fn rising_product(first: nat, count: nat) -> nat
    decreases count,
{
    if count == 0 {
        1
    } else {
        rising_product(first, (count - 1) as nat) * (first + count - 1) as nat
    }
}

/// Factorials are positive.
pub proof fn lemma_factorial_positive(n: nat)
    ensures
        factorial(n) > 0,
    decreases n,
{
    if n > 0 {
        lemma_factorial_positive((n - 1) as nat);
        assert(n * factorial((n - 1) as nat) > 0) by (nonlinear_arith)
            requires
                n > 0,
                factorial((n - 1) as nat) > 0,
        ;
    }
}

/// There is no way to choose more than there is.
pub proof fn lemma_binomial_zero(n: nat, k: nat)
    requires
        k > n,
    ensures
        binomial(n, k) == 0,
    decreases n,
{
    if n > 0 {
        lemma_binomial_zero((n - 1) as nat, (k - 1) as nat);
        lemma_binomial_zero((n - 1) as nat, k);
    }
}

/// `binomial(n, k) * k! * (n - k)! == n!` for `k <= n`.
pub proof fn lemma_binomial_factorials(n: nat, k: nat)
    requires
        k <= n,
    ensures
        binomial(n, k) * factorial(k) * factorial((n - k) as nat) == factorial(n),
    decreases n,
{
    if k == 0 {
        assert(binomial(n, k) == 1 && factorial(k) == 1);
        let f = factorial(n);
        assert(1 * 1 * f == f) by (nonlinear_arith);
    } else {
        let m = (n - 1) as nat;
        let j = (k - 1) as nat;
        let upper = binomial(m, j);
        let (fj, fd) = (factorial(j), factorial((n - k) as nat));
        lemma_binomial_factorials(m, j);
        assert(upper * fj * fd == factorial(m));
        if k == n {
            lemma_binomial_zero(m, k);
            assert(upper * (k * fj) * fd == k * (upper * fj * fd)) by (nonlinear_arith);
        } else {
            let lower = binomial(m, k);
            let fe = factorial((m - k) as nat);
            lemma_binomial_factorials(m, k);
            assert(lower * factorial(k) * fe == factorial(m));
            assert(fd == (n - k) * fe);
            assert((upper + lower) * (k * fj) * ((n - k) * fe) == k * (upper * fj * ((n - k) * fe))
                + (n - k) * (lower * (k * fj) * fe)) by (nonlinear_arith);
            assert(k * factorial(m) + (n - k) * factorial(m) == n * factorial(m))
                by (nonlinear_arith);
        }
    }
}

/// `first * (first + 1) * .. * (first + count - 1)` continues the factorial
/// of `first - 1`.
pub proof fn lemma_rising_product_factorial(first: nat, count: nat)
    requires
        first >= 1,
    ensures
        rising_product(first, count) * factorial((first - 1) as nat) == factorial(
            (first + count - 1) as nat,
        ),
    decreases count,
{
    if count > 0 {
        let c = (count - 1) as nat;
        lemma_rising_product_factorial(first, c);
        let (r, f, t) = (rising_product(first, c), factorial((first - 1) as nat), (first + count
            - 1) as nat);
        assert((r * t) * f == t * (r * f)) by (nonlinear_arith);
    } else {
        let f = factorial((first - 1) as nat);
        assert(rising_product(first, count) == 1);
        assert(1 * f == f) by (nonlinear_arith);
    }
}

/// The product of the `k` numbers that end at `n` is `binomial(n, k) * k!`.
pub proof fn lemma_rising_product_binomial(n: nat, k: nat)
    requires
        k <= n,
    ensures
        rising_product((n - k + 1) as nat, k) == binomial(n, k) * factorial(k),
{
    let first = (n - k + 1) as nat;
    let f = factorial((n - k) as nat);
    lemma_rising_product_factorial(first, k);
    lemma_binomial_factorials(n, k);
    lemma_factorial_positive((n - k) as nat);
    let (a, b) = (rising_product(first, k), binomial(n, k) * factorial(k));
    assert(a == b) by (nonlinear_arith)
        requires
            a * f == b * f,
            f > 0,
    ;
}

/// Whether `x` is an inverse of `a` modulo `m`.
pub open spec fn is_inverse(x: int, a: int, m: int) -> bool {
    (x * a) % m == 1
}

/// Multiplying by a number and by its inverse changes nothing modulo `m`.
pub proof fn lemma_cancel_inverse(c: int, x: int, a: int, m: int)
    requires
        m > 1,
        is_inverse(x, a, m),
    ensures
        (c * (x * a)) % m == c % m,
{
    lemma_mul_mod_noop_right(c, x * a, m);
    assert(c * 1 == c);
}

/// The inverse of `i` from the inverse `v` of `m % i`:
/// `-(v * (m / i))` inverts `i`, because `(m / i) * i` is `-(m % i)`
/// modulo `m`.
pub proof fn lemma_inverse_step(m: int, i: int, v: int, w: int)
    requires
        m > 1,
        0 < i,
        is_inverse(v, m % i, m),
        w == (v * (m / i)) % m,
    ensures
        is_inverse(m - w, i, m),
{
    let (q, r) = (m / i, m % i);
    lemma_fundamental_div_mod(m, i);
    lemma_mul_mod_noop_left(v * q, i, m);
    assert((w * i) % m == (v * q * i) % m);
    assert(v * q * i == v * m - v * r) by (nonlinear_arith)
        requires
            m == i * q + r,
    ;
    // -(w * i) is congruent to -(v * q * i) = v * r - v * m.
    lemma_sub_mod_noop(0, w * i, m);
    lemma_sub_mod_noop(0, v * q * i, m);
    assert((0 - w * i) % m == (v * r - v * m) % m);
    lemma_mod_multiples_vanish(-v, v * r, m);
    assert(m * (-v) + v * r == v * r - v * m) by (nonlinear_arith);
    lemma_mod_multiples_vanish(i, 0 - w * i, m);
    assert((m - w) * i == m * i + (0 - w * i)) by (nonlinear_arith);
}

/// One more factor for a reduced factorial.
proof fn lemma_factorial_step(m: int, i: nat, f: int)
    requires
        m > 1,
        i >= 1,
        f == factorial((i - 1) as nat) % (m as nat),
    ensures
        (f * i) % m == factorial(i) % (m as nat),
{
    let prev = factorial((i - 1) as nat);
    lemma_mul_mod_noop_left(prev as int, i as int, m);
    assert(prev * i == i * prev) by (nonlinear_arith);
}

/// One more factor for the inverse of a factorial.
proof fn lemma_inverse_factorial_step(m: int, i: nat, f: int, v: int)
    requires
        m > 1,
        i >= 1,
        is_inverse(f, factorial((i - 1) as nat) as int, m),
        is_inverse(v, i as int, m),
    ensures
        is_inverse((f * v) % m, factorial(i) as int, m),
{
    let prev = factorial((i - 1) as nat) as int;
    let whole = factorial(i) as int;
    lemma_mul_mod_noop_left(f * v, whole, m);
    assert((f * v) * whole == (f * prev) * (v * i)) by (nonlinear_arith)
        requires
            whole == i * prev,
    ;
    lemma_cancel_inverse(f * prev, v, i as int, m);
}

/// The quotient of factorials, formed modulo `m` with inverse factorials,
/// is the binomial coefficient modulo `m`.
proof fn lemma_combination_value(m: int, n: nat, k: nat, fa: int, fb: int)
    requires
        m > 1,
        k <= n,
        is_inverse(fa, factorial(k) as int, m),
        is_inverse(fb, factorial((n - k) as nat) as int, m),
    ensures
        ((factorial(n) % (m as nat)) * ((fa * fb) % m)) % m == binomial(n, k) % (m as nat),
{
    let (f, a, b, c) = (
        factorial(n) as int,
        factorial(k) as int,
        factorial((n - k) as nat) as int,
        binomial(n, k) as int,
    );
    lemma_binomial_factorials(n, k);
    lemma_mul_mod_noop_general(f, fa * fb, m);
    assert(f * (fa * fb) == (c * (fa * a)) * (fb * b)) by (nonlinear_arith)
        requires
            c * a * b == f,
    ;
    lemma_cancel_inverse(c * (fa * a), fb, b, m);
    lemma_cancel_inverse(c, fa, a, m);
}

/// The product of the `k` numbers that end at `n`, formed modulo `m` and
/// multiplied by an inverse of `k!`, is the binomial coefficient modulo `m`.
proof fn lemma_large_combination_value(m: int, n: nat, k: nat, fa: int)
    requires
        m > 1,
        k <= n,
        is_inverse(fa, factorial(k) as int, m),
    ensures
        ((rising_product((n - k + 1) as nat, k) % (m as nat)) * fa) % m == binomial(n, k) % (
        m as nat),
{
    let (a, c) = (factorial(k) as int, binomial(n, k) as int);
    let p = rising_product((n - k + 1) as nat, k) as int;
    lemma_rising_product_binomial(n, k);
    lemma_mul_mod_noop_left(p, fa, m);
    assert(p * fa == c * (fa * a)) by (nonlinear_arith)
        requires
            p == c * a,
    ;
    lemma_cancel_inverse(c, fa, a, m);
}

/// Tables of `i!` and of the inverse of `i!` modulo a prime, for `i`
/// below a capacity.
pub struct ModComb {
    modulo: usize,
    fac: Vec<usize>,
    finv: Vec<usize>,
}

impl ModComb {
    /// The prime modulus.
    pub closed spec fn modulo_spec(&self) -> nat {
        self.modulo as nat
    }

    /// The number of entries of each table.
    pub closed spec fn cap_spec(&self) -> nat {
        self.fac@.len()
    }

    /// Whether the tables hold the factorials and their inverses.
    pub closed spec fn wf(&self) -> bool {
        &&& is_prime_spec(self.modulo as nat)
        &&& self.modulo * self.modulo <= usize::MAX
        &&& 2 <= self.fac@.len() <= self.modulo
        &&& self.finv@.len() == self.fac@.len()
        &&& forall|i: int|
            0 <= i < self.fac@.len() ==> #[trigger] self.fac@[i] == factorial(i as nat) % (
            self.modulo as nat)
        &&& forall|i: int|
            0 <= i < self.finv@.len() ==> self.finv@[i] < self.modulo && is_inverse(
                #[trigger] self.finv@[i] as int,
                factorial(i as nat) as int,
                self.modulo as int,
            )
    }

    /// Builds the tables for arguments below `cap` and the prime `modulo`.
    pub fn new(cap: usize, modulo: usize) -> (r: Self)
        requires
            2 <= cap <= modulo,
            is_prime_spec(modulo as nat),
            modulo * modulo <= usize::MAX,
        ensures
            r.wf(),
            r.cap_spec() == cap,
            r.modulo_spec() == modulo,
    {
        let mut fac: Vec<usize> = vec![0; cap];
        let mut finv: Vec<usize> = vec![0; cap];
        let mut inv: Vec<usize> = vec![0; cap];
        fac[0] = 1;
        fac[1] = 1;
        finv[0] = 1;
        finv[1] = 1;
        inv[1] = 1;
        proof {
            lemma_small_mod(1, modulo as nat);
            assert(factorial(1) == 1 && factorial(0) == 1) by {
                reveal_with_fuel(factorial, 2);
            }
        }
        let mut i: usize = 2;
        while i < cap
            invariant
                2 <= i <= cap <= modulo,
                is_prime_spec(modulo as nat),
                modulo * modulo <= usize::MAX,
                fac@.len() == cap,
                finv@.len() == cap,
                inv@.len() == cap,
                forall|j: int| 0 <= j < i ==> #[trigger] fac@[j] == factorial(j as nat) % (modulo as nat),
                forall|j: int|
                    1 <= j < i ==> 1 <= inv@[j] <= modulo && is_inverse(
                        #[trigger] inv@[j] as int,
                        j,
                        modulo as int,
                    ),
                forall|j: int|
                    0 <= j < i ==> finv@[j] < modulo && is_inverse(
                        #[trigger] finv@[j] as int,
                        factorial(j as nat) as int,
                        modulo as int,
                    ),
            decreases cap - i,
        {
            let r = modulo % i;
            let q = modulo / i;
            let prev_fac = fac[i - 1];
            let prev_finv = finv[i - 1];
            proof {
                assert(modulo as nat % i as nat != 0);
                assert(1 <= r < i);
                lemma_fundamental_div_mod(modulo as int, i as int);
                assert(q <= modulo) by (nonlinear_arith)
                    requires
                        modulo == i * q + r,
                        i >= 2,
                        q >= 0,
                        r >= 0,
                ;
                lemma_product_fits(prev_fac as int, i as int, modulo as int);
                lemma_product_fits(inv@[r as int] as int, q as int, modulo as int);
            }
            let next_fac = prev_fac * i % modulo;
            let w = inv[r] * q % modulo;
            let next_inv = modulo - w;
            proof {
                lemma_product_fits(prev_finv as int, next_inv as int, modulo as int);
                lemma_factorial_step(modulo as int, i as nat, prev_fac as int);
                lemma_inverse_step(modulo as int, i as int, inv@[r as int] as int, w as int);
                lemma_inverse_factorial_step(
                    modulo as int,
                    i as nat,
                    prev_finv as int,
                    next_inv as int,
                );
            }
            let next_finv = prev_finv * next_inv % modulo;
            fac[i] = next_fac;
            inv[i] = next_inv;
            finv[i] = next_finv;
            i += 1;
        }
        ModComb { modulo, fac, finv }
    }

    /// The prime modulus.
    pub fn modulo(&self) -> (m: usize)
        ensures
            m == self.modulo_spec(),
    {
        self.modulo
    }

    /// The number of entries of each table.
    pub fn cap(&self) -> (c: usize)
        ensures
            c == self.cap_spec(),
    {
        self.fac.len()
    }

    /// `i!` modulo the prime.
    pub fn fac(&self, i: usize) -> (f: usize)
        requires
            self.wf(),
            i < self.cap_spec(),
        ensures
            f == factorial(i as nat) % self.modulo_spec(),
    {
        self.fac[i]
    }

    /// The inverse of `i!` modulo the prime.
    pub fn finv(&self, i: usize) -> (f: usize)
        requires
            self.wf(),
            i < self.cap_spec(),
        ensures
            f < self.modulo_spec(),
            is_inverse(f as int, factorial(i as nat) as int, self.modulo_spec() as int),
    {
        self.finv[i]
    }

    /// The number of ways to choose `k` of `n` things, modulo the prime.
    pub fn combination(&self, n: usize, k: usize) -> (c: usize)
        requires
            self.wf(),
            k <= n ==> n < self.cap_spec(),
        ensures
            c == binomial(n as nat, k as nat) % self.modulo_spec(),
    {
        if n < k {
            proof {
                lemma_binomial_zero(n as nat, k as nat);
                lemma_small_mod(0, self.modulo as nat);
            }
            return 0;
        }
        let (fa, fb) = (self.finv[k], self.finv[n - k]);
        proof {
            lemma_product_fits(fa as int, fb as int, self.modulo as int);
            lemma_product_fits(self.fac@[n as int] as int, (fa * fb) % (self.modulo as int), self.modulo as int);
            lemma_combination_value(self.modulo as int, n as nat, k as nat, fa as int, fb as int);
        }
        self.fac[n] * (fa * fb % self.modulo) % self.modulo
    }

    /// The number of ways to choose `k` things of `n` kinds with
    /// repetition, modulo the prime: `binomial(n + k - 1, k)`.
    pub fn homogeneous(&self, n: usize, k: usize) -> (c: usize)
        requires
            self.wf(),
            1 <= n + k <= usize::MAX,
            n >= 1 ==> n + k - 1 < self.cap_spec(),
        ensures
            c == binomial((n + k - 1) as nat, k as nat) % self.modulo_spec(),
    {
        self.combination(n + k - 1, k)
    }

    /// The number of ways to choose `k` of `n` things, modulo the prime,
    /// for an `n` beyond the tables: `k` multiplications.
    pub fn large_n_combination(&self, n: usize, k: usize) -> (c: usize)
        requires
            self.wf(),
            k <= n ==> k < self.cap_spec() && (self.modulo_spec() - 1) * n <= usize::MAX,
        ensures
            c == binomial(n as nat, k as nat) % self.modulo_spec(),
    {
        if n < k {
            proof {
                lemma_binomial_zero(n as nat, k as nat);
                lemma_small_mod(0, self.modulo as nat);
            }
            return 0;
        }
        let below = n - k;
        let ghost first = below + 1;
        let mut res: usize = 1;
        let mut done: usize = 0;
        proof {
            lemma_small_mod(1, self.modulo as nat);
        }
        while done < k
            invariant
                self.wf(),
                done <= k <= n,
                below == n - k,
                first == below + 1,
                (self.modulo - 1) * n <= usize::MAX,
                res == rising_product(first as nat, done as nat) % (self.modulo as nat),
            decreases k - done,
        {
            let i = below + done + 1;
            proof {
                assert(res * i <= (self.modulo - 1) * n) by (nonlinear_arith)
                    requires
                        0 <= res <= self.modulo - 1,
                        0 <= i <= n,
                ;
                lemma_mul_mod_noop_left(
                    rising_product(first as nat, done as nat) as int,
                    i as int,
                    self.modulo as int,
                );
            }
            res = res * i % self.modulo;
            done += 1;
        }
        let fa = self.finv[k];
        proof {
            lemma_product_fits(res as int, fa as int, self.modulo as int);
            lemma_large_combination_value(self.modulo as int, n as nat, k as nat, fa as int);
        }
        res * fa % self.modulo
    }
}

/// A product of two numbers up to `m` is at most `m * m`.
proof fn lemma_product_fits(a: int, b: int, m: int)
    requires
        0 <= a <= m,
        0 <= b <= m,
    ensures
        0 <= a * b <= m * m,
{
    assert(0 <= a * b <= m * m) by (nonlinear_arith)
        requires
            0 <= a <= m,
            0 <= b <= m,
    ;
}

} // verus!
