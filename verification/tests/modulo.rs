use algo_snippets::modulo::{mod_inv, mod_pow};

const MOD: usize = 998244353;

#[test]
fn test_mod_pow() {
    assert_eq!(mod_pow(10, 0, MOD), 1);
    assert_eq!(mod_pow(10, 3, MOD), 1000);
    assert_eq!(mod_pow(10, 10, MOD), 17556470);
}

#[test]
fn test_mod_inv() {
    assert_eq!(mod_inv(7, 13), 2);
    assert_eq!(mod_inv(2, MOD), 499122177);
}

#[test]
fn mod_pow_edge_cases() {
    // The empty product is returned unreduced.
    assert_eq!(mod_pow(5, 0, 1), 1);
    assert_eq!(mod_pow(5, 1, 1), 0);
    assert_eq!(mod_pow(0, 0, 7), 1);
    assert_eq!(mod_pow(0, 5, 7), 0);
    assert_eq!(mod_pow(2, 10, 1000), 24);
    assert_eq!(mod_pow(3, 5, 7), 5);
    assert_eq!(mod_pow(7, 1, 5), 2);
    assert_eq!(mod_pow(4_000_000_000, 2, 4_294_967_291), 3_430_488_118);
}

#[test]
fn mod_inv_inverts_modulo_a_prime() {
    for a in 1..13 {
        assert_eq!(a * mod_inv(a, 13) % 13, 1);
    }
    assert_eq!(mod_inv(1, 2), 1);
}

#[test]
fn powers_follow_fermat() {
    for p in [2usize, 3, 5, 7, 11, 13, 101, 998244353] {
        for a in 1..20 {
            if a % p != 0 {
                assert_eq!(mod_pow(a, p - 1, p), 1);
                assert_eq!(a * mod_inv(a, p) % p, 1);
            }
        }
    }
}
