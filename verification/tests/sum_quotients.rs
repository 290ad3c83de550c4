use algo_snippets::sum_quotients::sum_quotients;

fn naive_sum(n: usize) -> u128 {
    let mut s = 0u128;
    for b in 1..=n {
        s += (n / b) as u128;
    }
    s
}

#[test]
fn test_small_values() {
    for n in 1..=10000 {
        assert_eq!(sum_quotients(n), naive_sum(n));
    }
}

#[test]
fn test_examples() {
    assert_eq!(sum_quotients(1), 1); // floor(1/1)=1
    assert_eq!(sum_quotients(2), 3); // 2/1=2, 2/2=1 →3
    assert_eq!(sum_quotients(10), 27);
    assert_eq!(sum_quotients(100), naive_sum(100));
}

#[test]
fn sum_of_nothing_and_of_much() {
    assert_eq!(sum_quotients(0), 0);
    assert_eq!(sum_quotients(100), 482);
    assert_eq!(sum_quotients(1_000_000), 13_970_034);
    // Beyond what a loop over every divisor could reach.
    assert_eq!(sum_quotients(1_000_000_000_000), 27785452449086);
}
