use algo_snippets::positional_notation::{chars_to_decimal, decimal_to_chars};

#[test]
fn test_chars_to_decimal() {
    assert_eq!(chars_to_decimal(vec!['2', '1'], 8), 17)
}

#[test]
fn test_decimal_to_chars() {
    assert_eq!(decimal_to_chars(17, 9), vec!['1', '8'])
}

#[test]
fn reading_edge_cases() {
    assert_eq!(chars_to_decimal(vec![], 10), 0);
    assert_eq!(chars_to_decimal(vec!['0'], 10), 0);
    assert_eq!(chars_to_decimal(vec!['0', '0', '7'], 10), 7);
    assert_eq!(chars_to_decimal(vec!['1', '0', '1', '1'], 2), 11);
    assert_eq!(chars_to_decimal(vec!['9', '9'], 10), 99);
    // A character counts as its distance from '0', whatever the base.
    assert_eq!(chars_to_decimal(vec!['1', ':'], 10), 20);
    assert_eq!(chars_to_decimal(vec!['5', '3'], 0), 3);
    assert_eq!(chars_to_decimal(vec!['5', '3'], 1), 8);
}

#[test]
fn writing_edge_cases() {
    assert_eq!(decimal_to_chars(0, 2), vec!['0']);
    assert_eq!(decimal_to_chars(0, 36), vec!['0']);
    assert_eq!(decimal_to_chars(1, 2), vec!['1']);
    assert_eq!(decimal_to_chars(11, 2), vec!['1', '0', '1', '1']);
    assert_eq!(decimal_to_chars(255, 16), vec!['f', 'f']);
    assert_eq!(decimal_to_chars(35, 36), vec!['z']);
    assert_eq!(decimal_to_chars(36, 36), vec!['1', '0']);
    assert_eq!(decimal_to_chars(10, 11), vec!['a']);
    assert_eq!(decimal_to_chars(9, 10), vec!['9']);
    assert_eq!(decimal_to_chars(1000, 10), vec!['1', '0', '0', '0']);
}

#[test]
fn writing_then_reading_gives_the_number_back() {
    for base in 2..=10 {
        for n in 0..500 {
            assert_eq!(chars_to_decimal(decimal_to_chars(n, base), base), n);
        }
    }
}
