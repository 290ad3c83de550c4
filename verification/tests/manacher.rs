use algo_snippets::manacher::{manacher, manacher_with_dummy};

#[test]
fn test_manacher_basic_odd_only() {
    let s: Vec<char> = "aba".chars().collect();
    let r = manacher(&s);
    assert_eq!(r, vec![1, 2, 1]);
}

#[test]
fn test_manacher_no_palindrome() {
    let s: Vec<char> = "abc".chars().collect();
    let r = manacher(&s);
    assert_eq!(r, vec![1, 1, 1]);
}

#[test]
fn test_manacher_with_dummy_odd() {
    let s: Vec<char> = "aba".chars().collect();
    let r = manacher_with_dummy(&s);
    assert_eq!(r, vec![1, 2, 1, 4, 1, 2, 1]);
}

#[test]
fn test_manacher_with_dummy_even() {
    let s: Vec<char> = "abba".chars().collect();
    let r = manacher_with_dummy(&s);
    assert_eq!(r, vec![1, 2, 1, 2, 5, 2, 1, 2, 1]);
}

#[test]
fn test_manacher_with_dummy_no_palindrome() {
    let s: Vec<char> = "abc".chars().collect();
    let r = manacher_with_dummy(&s);
    assert_eq!(r, vec![1, 2, 1, 2, 1, 2, 1]);
}

#[test]
fn test_manacher_with_dummy_all_same() {
    let s: Vec<char> = "aaaaa".chars().collect();
    let r = manacher_with_dummy(&s);
    assert_eq!(r, vec![1, 2, 3, 4, 5, 6, 5, 4, 3, 2, 1]);
}

#[test]
fn manacher_empty_and_single() {
    assert_eq!(manacher(&vec![]), Vec::<usize>::new());
    assert_eq!(manacher(&vec!['x']), vec![1]);
    assert_eq!(manacher_with_dummy(&vec![]), vec![1]);
    assert_eq!(manacher_with_dummy(&vec!['x']), vec![1, 2, 1]);
}

#[test]
fn manacher_agrees_with_direct_search() {
    let texts = ["abacabadabacaba", "aaaaaaaa", "abcbaabcba", "mississippi", "abababab"];
    for text in texts {
        let s: Vec<char> = text.chars().collect();
        let r = manacher(&s);
        for i in 0..s.len() {
            let mut j = 0;
            while i >= j && i + j < s.len() && s[i - j] == s[i + j] {
                j += 1;
            }
            assert_eq!(r[i], j);
        }
    }
}
