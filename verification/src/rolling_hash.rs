//! Polynomial hashes of the prefixes of a byte string, modulo the Mersenne
//! prime `2^61 - 1`, from which the hash of any substring is read off in
//! constant time.

use vstd::arithmetic::div_mod::{
    lemma_add_mod_noop, lemma_mod_multiples_vanish, lemma_mul_mod_noop_general,
    lemma_mul_mod_noop_left, lemma_small_mod, lemma_sub_mod_noop,
};
use vstd::arithmetic::power::{lemma_pow0, lemma_pow_adds, pow};
use vstd::prelude::*;
use vstd::string::StringSliceAdditionalSpecFns;

verus! {

/// The modulus `2^61 - 1` as an unbounded integer.
pub open spec fn modulus() -> int {
    0x1fff_ffff_ffff_ffff
}

/// The value of `bytes` read as the digits of a number in base `base`,
/// the first byte being the most significant digit.
pub open spec fn polynomial(bytes: Seq<u8>, base: int) -> int
    decreases bytes.len(),
{
    if bytes.len() == 0 {
        0
    } else {
        polynomial(bytes.drop_last(), base) * base + bytes.last()
    }
}

/// The hash of `bytes` for the base `base`: its polynomial value reduced
/// modulo `2^61 - 1`.
pub open spec fn hash_of(bytes: Seq<u8>, base: int) -> int {
    polynomial(bytes, base) % modulus()
}

/// The polynomial of a concatenation: the left part is shifted by the
/// length of the right part.
pub proof fn lemma_polynomial_concat(a: Seq<u8>, b: Seq<u8>, base: int)
    ensures
        polynomial(a + b, base) == polynomial(a, base) * pow(base, b.len()) + polynomial(b, base),
    decreases b.len(),
{
    if b.len() == 0 {
        assert(a + b =~= a);
        lemma_pow0(base);
    } else {
        let front = b.drop_last();
        assert((a + b).drop_last() =~= a + front);
        lemma_polynomial_concat(a, front, base);
        let (pa, pf, e) = (polynomial(a, base), polynomial(front, base), pow(base, front.len()));
        lemma_pow_adds(base, front.len(), 1);
        vstd::arithmetic::power::lemma_pow1(base);
        assert(pow(base, b.len()) == e * base);
        assert((pa * e + pf) * base == pa * (e * base) + pf * base) by (nonlinear_arith);
    }
}

/// The hash of a concatenation from the hashes of its parts.
pub proof fn lemma_hash_concat(a: Seq<u8>, b: Seq<u8>, base: int)
    ensures
        hash_of(a + b, base) == (hash_of(a, base) * (pow(base, b.len()) % modulus()) + hash_of(
            b,
            base,
        )) % modulus(),
{
    let m = modulus();
    let (pa, pb, e) = (polynomial(a, base), polynomial(b, base), pow(base, b.len()));
    lemma_polynomial_concat(a, b, base);
    lemma_mul_mod_noop_general(pa, e, m);
    lemma_add_mod_noop(pa * e, pb, m);
    lemma_add_mod_noop((pa % m) * (e % m), pb % m, m);
    lemma_add_mod_noop((pa % m) * (e % m), pb, m);
}

/// Prefix hashes of a byte string for one base.
#[derive(Debug, Clone)]
pub struct RollingHash {
    base: u64,
    pow: Vec<u64>,
    hash: Vec<u64>,
}

impl View for RollingHash {
    type V = Seq<u8>;

    /// The bytes that were hashed.
    closed spec fn view(&self) -> Seq<u8> {
        Seq::new((self.hash@.len() - 1) as nat, |i: int| self.byte_at(i) as u8)
    }
}

impl RollingHash {
    /// The Mersenne prime `2^61 - 1`.
    pub const MOD: u64 = 0x1fff_ffff_ffff_ffff;

    /// The byte that leads from prefix hash `i` to prefix hash `i + 1`.
    closed spec fn byte_at(&self, i: int) -> int {
        (self.hash@[i + 1] - self.hash@[i] * self.base) % modulus()
    }

    /// The base of the polynomial.
    pub closed spec fn base_spec(&self) -> u64 {
        self.base
    }

    /// Whether the tables are those of `self@` for the base `self.base_spec()`.
    pub closed spec fn wf(&self) -> bool {
        &&& self.hash@.len() >= 1
        &&& self.pow@.len() == self.hash@.len()
        &&& 2 <= self.base < modulus()
        &&& forall|i: int| 0 <= i < self.hash@.len() - 1 ==> 0 <= #[trigger] self.byte_at(i) < 256
        &&& forall|i: int|
            0 <= i < self.hash@.len() ==> #[trigger] self.hash@[i] == hash_of(
                self@.take(i),
                self.base as int,
            )
        &&& forall|i: int|
            0 <= i < self.pow@.len() ==> #[trigger] self.pow@[i] == pow(self.base as int, i as nat)
                % modulus()
    }

    /// Hashes the UTF-8 bytes of `s` with the library's own base.
    pub fn new(s: &str) -> (r: Self)
        ensures
            r.wf(),
            r@ == s.spec_bytes(),
            r.base_spec() == default_base(),
    {
        let base = Self::random_base();
        Self::with_base(s, base)
    }

    /// Hashes the UTF-8 bytes of `s` with the base `base`.
    pub fn with_base(s: &str, base: u64) -> (r: Self)
        requires
            2 <= base < modulus(),
        ensures
            r.wf(),
            r@ == s.spec_bytes(),
            r.base_spec() == base,
    {
        let bytes = s.as_bytes();
        let n = bytes.len();
        let mut powers: Vec<u64> = Vec::new();
        let mut hashes: Vec<u64> = Vec::new();
        powers.push(1);
        hashes.push(0);
        let mut h: u64 = 0;
        let mut p: u64 = 1;
        proof {
            lemma_pow0(base as int);
            lemma_small_mod(1, modulus() as nat);
            lemma_small_mod(0, modulus() as nat);
            assert(bytes@.take(0) =~= Seq::<u8>::empty());
        }
        let mut i: usize = 0;
        while i < n
            invariant
                n == bytes@.len(),
                i <= n,
                2 <= base < modulus(),
                hashes@.len() == i + 1,
                powers@.len() == i + 1,
                h == hashes@[i as int],
                p == powers@[i as int],
                forall|k: int| 0 <= k <= i ==> #[trigger] hashes@[k] == hash_of(bytes@.take(k), base as int),
                forall|k: int| 0 <= k <= i ==> #[trigger] powers@[k] == pow(base as int, k as nat) % modulus(),
                forall|k: int|
                    0 <= k < i ==> #[trigger] hashes@[k + 1] == (hashes@[k] * base + bytes@[k]) % modulus(),
            decreases n - i,
        {
            let b = bytes[i];
            let shifted = Self::mul_mod(h, base);
            let next = Self::add_mod(shifted, b as u64);
            let next_pow = Self::mul_mod(p, base);
            proof {
                let m = modulus();
                let front = bytes@.take(i as int);
                assert(bytes@.take(i + 1).drop_last() =~= front);
                lemma_mul_mod_noop_left(polynomial(front, base as int), base as int, m);
                lemma_add_mod_noop(polynomial(front, base as int) * base, b as int, m);
                lemma_add_mod_noop(h * base, b as int, m);
                lemma_small_mod(b as nat, m as nat);
                lemma_pow_adds(base as int, i as nat, 1);
                vstd::arithmetic::power::lemma_pow1(base as int);
                lemma_mul_mod_noop_left(pow(base as int, i as nat), base as int, m);
            }
            hashes.push(next);
            powers.push(next_pow);
            h = next;
            p = next_pow;
            i += 1;
        }
        let r = RollingHash { base, pow: powers, hash: hashes };
        proof {
            assert forall|k: int| 0 <= k < n implies r.byte_at(k) == bytes@[k] by {
                lemma_byte_recovered(r.hash@[k] * base, bytes@[k] as int);
            }
            assert(r@ =~= bytes@);
        }
        r
    }

    /// The hash of the bytes `l .. r` of the string.
    pub fn get(&self, l: usize, r: usize) -> (x: u64)
        requires
            self.wf(),
            l <= r <= self@.len(),
        ensures
            x == hash_of(self@.subrange(l as int, r as int), self.base_spec() as int),
    {
        let t = Self::mul_mod(self.hash[l], self.pow[r - l]);
        let mut x = self.hash[r] + Self::MOD - t;
        if x >= Self::MOD {
            x -= Self::MOD;
        }
        proof {
            let base = self.base as int;
            let left = self@.take(l as int);
            let part = self@.subrange(l as int, r as int);
            assert(left + part =~= self@.take(r as int));
            lemma_hash_concat(left, part, base);
            lemma_mod_difference(
                self.hash@[r as int] as int,
                self.hash@[l as int] * self.pow@[r - l],
                hash_of(part, base),
                x as int,
            );
        }
        x
    }

    /// The number of bytes that were hashed.
    pub fn len(&self) -> (n: usize)
        requires
            self.wf(),
        ensures
            n == self@.len(),
    {
        self.hash.len() - 1
    }

    /// Whether the hashed string is empty.
    pub fn is_empty(&self) -> (e: bool)
        requires
            self.wf(),
        ensures
            e == (self@.len() == 0),
    {
        self.len() == 0
    }

    /// The base of the polynomial.
    pub fn base(&self) -> (b: u64)
        ensures
            b == self.base_spec(),
    {
        self.base
    }

    /// `base^i mod (2^61 - 1)`, for `i` up to the length of the string.
    pub fn power(&self, i: usize) -> (p: u64)
        requires
            self.wf(),
            i <= self@.len(),
        ensures
            p == pow(self.base_spec() as int, i as nat) % modulus(),
    {
        self.pow[i]
    }

    /// The base that [`RollingHash::new`] uses: a fixed value of the
    /// range `2^30 .. 2^61 - 1`, drawn once by three xorshift steps.
    fn random_base() -> (b: u64)
        ensures
            b == default_base(),
    {
        let mut x: u64 = 0x9e37_79b9_7f4a_7c15;
        x ^= x << 7;
        assert(x == 0x858b_a506_da74_7695) by (bit_vector)
            requires
                x == 0x9e37_79b9_7f4a_7c15u64 ^ (0x9e37_79b9_7f4a_7c15u64 << 7),
        ;
        x ^= x >> 9;
        assert(x == 0x85c9_60d4_5919_4cae) by (bit_vector)
            requires
                x == 0x858b_a506_da74_7695u64 ^ (0x858b_a506_da74_7695u64 >> 9),
        ;
        x ^= x << 8;
        assert(x == 0x4ca9_b48d_4055_e2ae) by (bit_vector)
            requires
                x == 0x85c9_60d4_5919_4caeu64 ^ (0x85c9_60d4_5919_4caeu64 << 8),
        ;
        let span: u64 = Self::MOD - 0x4000_0000;
        let b = (x % span) + 0x4000_0000;
        if b <= 1 {
            2
        } else {
            b
        }
    }

    /// `(a + b) mod (2^61 - 1)` for reduced `a` and `b`.
    pub fn add_mod(a: u64, b: u64) -> (r: u64)
        requires
            a < modulus(),
            b < modulus(),
        ensures
            r == (a + b) % modulus(),
    {
        let mut s = a + b;
        if s >= Self::MOD {
            s -= Self::MOD;
            proof {
                lemma_remainder_is(a + b, 1, s as int);
            }
        } else {
            proof {
                lemma_small_mod(s as nat, modulus() as nat);
            }
        }
        s
    }

    /// `(a * b) mod (2^61 - 1)` for reduced `a` and `b`.
    pub fn mul_mod(a: u64, b: u64) -> (r: u64)
        requires
            a < modulus(),
            b < modulus(),
        ensures
            r == (a * b) % modulus(),
    {
        proof {
            assert(a * b <= (modulus() - 1) * (modulus() - 1)) by (nonlinear_arith)
                requires
                    0 <= a <= modulus() - 1,
                    0 <= b <= modulus() - 1,
            ;
        }
        Self::reduce((a as u128) * (b as u128))
    }

    /// Reduces a product of two reduced values modulo `2^61 - 1` by adding
    /// its upper bits to its lower 61 bits.
    fn reduce(x: u128) -> (r: u64)
        requires
            x <= (modulus() - 1) * (modulus() - 1),
        ensures
            r == (x as int) % modulus(),
    {
        proof {
            let l = x & 0x1fff_ffff_ffff_ffff;
            let h = x >> 61;
            assert((modulus() - 1) * (modulus() - 1) == 0x3ff_ffff_ffff_ffff_8000_0000_0000_0004)
                by (nonlinear_arith);
            assert(l <= 0x1fff_ffff_ffff_ffff && h <= 0x1fff_ffff_ffff_fffd && x == h
                * 0x2000_0000_0000_0000 + l) by (bit_vector)
                requires
                    l == x & 0x1fff_ffff_ffff_ffff,
                    h == x >> 61,
                    x <= 0x3ff_ffff_ffff_ffff_8000_0000_0000_0004u128,
            ;
            lemma_mod_multiples_vanish(h as int, (h + l) as int, modulus());
            assert(x == modulus() * h + (h + l));
        }
        let low = (x & 0x1fff_ffff_ffff_ffff) as u64;
        let high = (x >> 61) as u64;
        let mut s = low + high;
        if s >= Self::MOD {
            proof {
                lemma_remainder_is(s as int, 1, s - modulus());
            }
            s -= Self::MOD;
        } else {
            proof {
                lemma_small_mod(s as nat, modulus() as nat);
            }
        }
        s
    }
}

/// The base that [`RollingHash::new`] uses.
pub open spec fn default_base() -> u64 {
    0x0ca9_b48e_0055_e2b0
}

/// Adding a byte to `y` modulo `2^61 - 1` and taking `y` away again leaves
/// the byte.
proof fn lemma_byte_recovered(y: int, b: int)
    requires
        0 <= b < 256,
    ensures
        ((y + b) % modulus() - y) % modulus() == b,
{
    let m = modulus();
    vstd::arithmetic::div_mod::lemma_sub_mod_noop_right((y + b) % m, y, m);
    lemma_sub_mod_noop(y + b, y, m);
    lemma_small_mod(b as nat, m as nat);
}

/// Taking a summand away from a reduced sum: if `whole` is `a + part`
/// reduced, and `x` is `whole - (a mod m)` brought into `0 .. m`, then `x`
/// is `part`.
proof fn lemma_mod_difference(whole: int, a: int, part: int, x: int)
    requires
        whole == (a + part) % modulus(),
        0 <= part < modulus(),
        0 <= x < modulus(),
        x == whole - a % modulus() || x == whole - a % modulus() + modulus(),
    ensures
        x == part,
{
    let m = modulus();
    lemma_sub_mod_noop(a + part, a, m);
    lemma_small_mod(part as nat, m as nat);
    let d = whole - a % m;
    assert(d % m == part);
    if x == d {
        lemma_small_mod(x as nat, m as nat);
    } else {
        lemma_remainder_is(d, -1, x);
    }
}

/// If `x == q * m + r` with `0 <= r < m` for the modulus `m`, then `r` is
/// `x mod m`.
proof fn lemma_remainder_is(x: int, q: int, r: int)
    requires
        x == q * modulus() + r,
        0 <= r < modulus(),
    ensures
        r == x % modulus(),
{
    vstd::arithmetic::div_mod::lemma_fundamental_div_mod_converse_mod(x, modulus(), q, r);
}

} // verus!
