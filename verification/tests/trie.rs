use algo_snippets::trie::Trie;

#[test]
fn test_trie_insert_and_contains() {
    let mut trie = Trie::new();
    trie.insert("apple");
    trie.insert("app");
    trie.insert("banana");

    assert!(trie.contains("apple"));
    assert!(trie.contains("app"));
    assert!(trie.contains("banana"));
    assert!(!trie.contains("banan"));
    assert!(!trie.contains("apples"));
    assert!(!trie.contains("orange"));
}

#[test]
fn test_trie_starts_with() {
    let mut trie = Trie::new();
    trie.insert("apple");
    trie.insert("app");
    trie.insert("banana");

    assert!(trie.starts_with("app"));
    assert!(trie.starts_with("ban"));
    assert!(trie.starts_with("bana"));
    assert!(!trie.starts_with("bat"));
    assert!(!trie.starts_with("cat"));
}

#[test]
fn empty_trie_and_empty_word() {
    let mut trie = Trie::new();
    assert!(!trie.contains(""));
    assert!(!trie.contains("a"));
    // The empty prefix is accepted even where nothing was inserted.
    assert!(trie.starts_with(""));
    assert!(!trie.starts_with("a"));
    trie.insert("");
    assert!(trie.contains(""));
    assert!(!trie.contains("a"));
    trie.insert("zz");
    assert!(trie.starts_with("z"));
    assert!(trie.starts_with("zz"));
    assert!(!trie.starts_with("zzz"));
    assert!(!trie.contains("z"));
}

#[test]
fn inserting_twice_changes_nothing() {
    let mut trie = Trie::new();
    trie.insert("az");
    trie.insert("az");
    assert!(trie.contains("az"));
    assert!(!trie.contains("a"));
    assert!(!trie.contains("za"));
}
