use algo_snippets::prime::{divisors, eratosthenes_sieve, is_prime, prime_factors};

#[test]
fn test_is_prime() {
    assert!(is_prime(1_000_000_007));
    assert!(!is_prime(1_000_000_003));
    assert!(!is_prime(1));
}

#[test]
fn test_eratosthenes_sieve() {
    let primes_1: Vec<usize> = vec![];
    let primes_2 = vec![2];
    let primes_10 = vec![2, 3, 5, 7];
    let primes_20 = vec![2, 3, 5, 7, 11, 13, 17, 19];
    let primes_30 = vec![2, 3, 5, 7, 11, 13, 17, 19, 23, 29];

    assert_eq!(eratosthenes_sieve(1), primes_1);
    assert_eq!(eratosthenes_sieve(2), primes_2);
    assert_eq!(eratosthenes_sieve(10), primes_10);
    assert_eq!(eratosthenes_sieve(20), primes_20);
    assert_eq!(eratosthenes_sieve(30), primes_30);
}

#[test]
fn test_prime_factors() {
    let n1 = 60;
    let result1 = prime_factors(n1);
    assert_eq!(result1, vec![(2, 2), (3, 1), (5, 1)]);

    let n2 = 84;
    let result2 = prime_factors(n2);
    assert_eq!(result2, vec![(2, 2), (3, 1), (7, 1)]);

    let n3 = 101;
    let result3 = prime_factors(n3);
    assert_eq!(result3, vec![(101, 1)]);
}

#[test]
fn test_divisors() {
    let n1 = 60;
    let result1 = divisors(n1);
    assert_eq!(result1, vec![1, 2, 3, 4, 5, 6, 10, 12, 15, 20, 30, 60]);

    let n2 = 84;
    let result2 = divisors(n2);
    assert_eq!(result2, vec![1, 2, 3, 4, 6, 7, 12, 14, 21, 28, 42, 84]);

    let n3 = 101;
    let result3 = divisors(n3);
    assert_eq!(result3, vec![1, 101]);
}

#[test]
fn small_numbers() {
    assert!(!is_prime(0));
    assert!(is_prime(2));
    assert!(is_prime(3));
    assert!(!is_prime(4));
    assert!(!is_prime(9));
    assert!(!is_prime(25));
    assert!(is_prime(97));
    assert_eq!(prime_factors(0), vec![(0, 1)]);
    assert_eq!(prime_factors(1), vec![]);
    assert_eq!(prime_factors(2), vec![(2, 1)]);
    assert_eq!(prime_factors(4), vec![(2, 2)]);
    assert_eq!(prime_factors(1024), vec![(2, 10)]);
    assert_eq!(prime_factors(49), vec![(7, 2)]);
    assert_eq!(divisors(0), Vec::<usize>::new());
    assert_eq!(divisors(1), vec![1]);
    assert_eq!(divisors(16), vec![1, 2, 4, 8, 16]);
}

#[test]
fn squares_of_large_primes_are_not_prime() {
    // 65521 is the largest prime below 2^16.
    let p: usize = 65_521;
    assert!(is_prime(p));
    assert!(!is_prime(p * p));
    assert_eq!(prime_factors(p * p), vec![(p, 2)]);
    assert_eq!(divisors(p * p), vec![1, p, p * p]);
}

#[test]
fn sieve_agrees_with_trial_division() {
    let primes = eratosthenes_sieve(500);
    let by_trial: Vec<usize> = (0..=500).filter(|&n| is_prime(n)).collect();
    assert_eq!(primes, by_trial);
    assert_eq!(primes.len(), 95);
}

#[test]
fn divisors_come_out_sorted() {
    // The large divisors are found in descending order and must be put in place.
    assert_eq!(divisors(36), vec![1, 2, 3, 4, 6, 9, 12, 18, 36]);
    assert_eq!(divisors(12), vec![1, 2, 3, 4, 6, 12]);
}
