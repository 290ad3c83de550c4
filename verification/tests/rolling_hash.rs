use algo_snippets::rolling_hash::RollingHash;

#[test]
fn same_substring_should_match() {
    let s = "abacaba";
    let base = 911_382_323u64;
    let rh = RollingHash::with_base(s, base);

    let h1 = rh.get(0, 3);
    let h2 = rh.get(4, 7);
    assert_eq!(h1, h2);
}

#[test]
fn different_substring_should_not_match() {
    let s = "abcdefg";
    let base = 972_663_749u64;
    let rh = RollingHash::with_base(s, base);

    let a = rh.get(0, 3); // "abc"
    let b = rh.get(1, 4); // "bcd"
    assert_ne!(a, b);
}

#[test]
fn concatenation_property_holds() {
    // get(l, r) == get(l, m) * base^(r-m) + get(m, r)
    let s = "rollinghash";
    let base = 1_000_000_007u64;
    let rh = RollingHash::with_base(s, base);

    for l in 0..=s.len() {
        for m in l..=s.len() {
            for r in m..=s.len() {
                let left = rh.get(l, m);
                let right = rh.get(m, r);
                let combined =
                    RollingHash::add_mod(RollingHash::mul_mod(left, rh.power(r - m)), right);
                assert_eq!(rh.get(l, r), combined);
            }
        }
    }
}

#[test]
fn empty_and_single_char_cases() {
    let s = "";
    let base = 317u64;
    let rh = RollingHash::with_base(s, base);
    assert!(rh.is_empty());
    assert_eq!(rh.len(), 0);
    assert_eq!(rh.get(0, 0), 0);

    let s = "X";
    let rh = RollingHash::with_base(s, base);
    assert_eq!(rh.len(), 1);
    assert_eq!(rh.get(0, 1), b'X' as u64);
}

#[test]
fn utf8_should_be_hashed_as_bytes() {
    let s = "aあb"; // 'あ' takes three bytes: E3 81 82
    let base = 1234567891u64;
    let rh = RollingHash::with_base(s, base);

    assert_eq!(rh.len(), 5);

    let sub1 = rh.get(1, 4);
    let sub2 = rh.get(1, 4);
    assert_eq!(sub1, sub2);
}

#[test]
fn random_base_is_valid() {
    let s = "example";
    let rh = RollingHash::new(s);
    assert!(rh.base() >= (1u64 << 30) && rh.base() < RollingHash::MOD);
    assert_eq!(rh.get(0, 0), 0);
    assert_eq!(rh.get(0, 1), b'e' as u64);
}

#[test]
fn hash_is_the_polynomial_value() {
    // "ab" in base 1000 is 97 * 1000 + 98.
    let rh = RollingHash::with_base("abc", 1000);
    assert_eq!(rh.get(0, 2), 97_098);
    assert_eq!(rh.get(1, 3), 98_099);
    assert_eq!(rh.get(0, 3), 97_098_099);
    assert_eq!(rh.power(0), 1);
    assert_eq!(rh.power(3), 1_000_000_000);
    assert_eq!(rh.base(), 1000);
}

#[test]
fn modular_arithmetic_wraps_at_the_mersenne_prime() {
    let m = RollingHash::MOD;
    assert_eq!(m, (1u64 << 61) - 1);
    assert_eq!(RollingHash::add_mod(m - 1, 1), 0);
    assert_eq!(RollingHash::add_mod(m - 1, m - 1), m - 2);
    assert_eq!(RollingHash::add_mod(3, 4), 7);
    // (m - 1)^2 = 1 modulo m.
    assert_eq!(RollingHash::mul_mod(m - 1, m - 1), 1);
    assert_eq!(RollingHash::mul_mod(1 << 60, 2), 1);
    assert_eq!(RollingHash::mul_mod(1 << 31, 1 << 31), 2);
    assert_eq!(RollingHash::mul_mod(0, m - 1), 0);
}

#[test]
fn default_base_is_fixed() {
    let a = RollingHash::new("x");
    let b = RollingHash::new("y");
    assert_eq!(a.base(), b.base());
    assert_eq!(a.base(), 912_458_921_503_220_400);
}

#[test]
fn long_hash_stays_reduced() {
    let s = "the quick brown fox jumps over the lazy dog";
    let base = RollingHash::MOD - 1;
    let rh = RollingHash::with_base(s, base);
    for l in 0..=s.len() {
        for r in l..=s.len() {
            assert!(rh.get(l, r) < RollingHash::MOD);
        }
    }
    // With base -1 the hash of "ab" is -97 + 98.
    let rh = RollingHash::with_base("ab", base);
    assert_eq!(rh.get(0, 2), 1);
}
