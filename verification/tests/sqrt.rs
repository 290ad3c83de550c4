use algo_snippets::sqrt::{check_sqrt_estimate, floor_sqrt_from_estimate};

fn u64_floor_sqrt(n: u64) -> u64 {
    let estimate = (n as f64).sqrt() as u64;
    assert!(check_sqrt_estimate(n, estimate));
    floor_sqrt_from_estimate(n, estimate)
}

#[test]
fn test_u64_floor_sqrt() {
    let test_cases = vec![
        (0, 0),
        (1, 1),
        ((1 << 26) * (1 << 26) - 1, (1 << 26) - 1),
        ((1 << 26) * (1 << 26), 1 << 26),
        (((1 << 26) + 1) * ((1 << 26) + 1) - 1, (1 << 26)),
        (((1 << 26) + 1) * ((1 << 26) + 1), (1 << 26) + 1),
        (u64::MAX, (1u64 << 32) - 1),
    ];

    for (input, expected) in test_cases {
        assert_eq!(u64_floor_sqrt(input), expected, "Failed on input {}", input);
    }
}

#[test]
fn estimate_may_be_exact_or_one_too_large() {
    assert_eq!(floor_sqrt_from_estimate(24, 4), 4);
    assert_eq!(floor_sqrt_from_estimate(24, 5), 4);
    assert_eq!(floor_sqrt_from_estimate(25, 5), 5);
    assert_eq!(floor_sqrt_from_estimate(25, 6), 5);
    assert_eq!(floor_sqrt_from_estimate(0, 0), 0);
    assert_eq!(floor_sqrt_from_estimate(0, 1), 0);
    assert_eq!(floor_sqrt_from_estimate(u64::MAX, 1 << 32), (1 << 32) - 1);
}

#[test]
fn estimates_are_checked() {
    assert!(check_sqrt_estimate(24, 4));
    assert!(check_sqrt_estimate(24, 5));
    assert!(!check_sqrt_estimate(24, 3));
    assert!(!check_sqrt_estimate(24, 6));
    assert!(check_sqrt_estimate(0, 0));
    assert!(check_sqrt_estimate(0, 1));
    assert!(!check_sqrt_estimate(1, 0));
    assert!(!check_sqrt_estimate(0, 2));
    assert!(check_sqrt_estimate(u64::MAX, 1 << 32));
    assert!(!check_sqrt_estimate(u64::MAX, (1 << 32) + 1));
    assert!(!check_sqrt_estimate(u64::MAX, u64::MAX));
}
