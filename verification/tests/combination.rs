use algo_snippets::combination::ModComb;

#[test]
fn test_mod_combination() {
    let modulo = 1_000_000_007;
    let cap = 1001;
    let comb = ModComb::new(cap, modulo);

    // Test initialization
    assert_eq!(comb.modulo(), modulo);
    assert_eq!(comb.fac(0), 1);
    assert_eq!(comb.finv(0), 1);
    assert_eq!(comb.cap(), cap);

    // Test combinations
    assert_eq!(comb.combination(5, 3), 10);
    assert_eq!(comb.combination(10, 7), 120);
    assert_eq!(comb.combination(6, 6), 1);
    assert_eq!(comb.combination(1000, 500), 159835829);
}

#[test]
fn test_mod_homogeneous() {
    let modulo = 1_000_000_007;
    let cap = 1001;
    let comb = ModComb::new(cap, modulo);

    assert_eq!(comb.homogeneous(5, 3), 35); // 5H3 = 7C3 = 35
    assert_eq!(comb.homogeneous(10, 7), 11440); // 10H7 = 16C7 = 11440
    assert_eq!(comb.homogeneous(6, 0), 1); // 6H0 = 5C0 = 1
    assert_eq!(comb.homogeneous(10, 2), 55); // 10H2 = 11C2 = 55
}

#[test]
fn test_large_n_combination() {
    let modulo = 1_000_000_007;
    let cap = 200_001; // 1 <= k <= 2 * 10^5
    let comb = ModComb::new(cap, modulo);

    assert_eq!(comb.large_n_combination(5, 3), 10);
    assert_eq!(comb.large_n_combination(10, 7), 120);
    assert_eq!(comb.large_n_combination(6, 6), 1);

    let large_n = 1_000_000_000;
    assert_eq!(comb.large_n_combination(large_n, 141421), 516595147);
    assert_eq!(comb.large_n_combination(large_n, 173205), 589953354);
}

#[test]
fn combination_of_more_than_there_is() {
    let comb = ModComb::new(16, 17);
    assert_eq!(comb.combination(3, 4), 0);
    assert_eq!(comb.combination(0, 1), 0);
    assert_eq!(comb.large_n_combination(3, 4), 0);
    assert_eq!(comb.homogeneous(0, 2), 0);
    assert_eq!(comb.combination(0, 0), 1);
    assert_eq!(comb.large_n_combination(7, 0), 1);
}

#[test]
fn tables_hold_factorials_and_inverses() {
    let p = 13;
    let comb = ModComb::new(13, p);
    let mut f = 1usize;
    for i in 0..13 {
        if i > 0 {
            f = f * i % p;
        }
        assert_eq!(comb.fac(i), f);
        assert_eq!(comb.fac(i) * comb.finv(i) % p, 1);
    }
    // 12! = -1 modulo 13, by Wilson's theorem.
    assert_eq!(comb.fac(12), 12);
}

#[test]
fn combination_follows_pascal_rule_modulo_small_prime() {
    let p = 7;
    let comb = ModComb::new(7, p);
    for n in 1..7 {
        for k in 1..=n {
            let sum = (comb.combination(n - 1, k - 1) + comb.combination(n - 1, k)) % p;
            assert_eq!(comb.combination(n, k), sum);
            assert_eq!(comb.large_n_combination(n, k), sum);
        }
    }
    // 6 over 3 is 20, which is 6 modulo 7.
    assert_eq!(comb.combination(6, 3), 6);
}
