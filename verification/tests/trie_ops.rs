use trie::is_lowercase_word;
use trie::Trie;

#[test]
fn test_insert_and_search() {
    let mut trie = Trie::new();

    trie.insert("apple");
    trie.insert("banana");
    trie.insert("cherry");

    assert!(trie.search("apple"));
    assert!(trie.search("banana"));
    assert!(trie.search("cherry"));

    assert!(!trie.search("grape"));
    assert!(!trie.search("orange"));
    assert!(!trie.search("strawberry"));
}

#[test]
fn test_starts_with() {
    let mut trie = Trie::new();

    trie.insert("apple");
    trie.insert("banana");
    trie.insert("cherry");

    assert!(trie.starts_with("a"));
    assert!(trie.starts_with("app"));
    assert!(trie.starts_with("banan"));
    assert!(trie.starts_with("cher"));
    assert!(!trie.starts_with("gr"));

    let empty_trie = Trie::new();
    assert!(!empty_trie.starts_with("a"));
}

#[test]
fn test_empty_trie_prefixes() {
    let trie = Trie::new();
    assert!(!trie.starts_with("a"));
    assert!(trie.starts_with(""));
}

#[test]
fn test_empty_prefix_always_present() {
    let mut trie = Trie::new();
    assert!(trie.starts_with(""));
    trie.insert("word");
    assert!(trie.starts_with(""));
}

#[test]
fn test_prefix_is_not_a_word() {
    let mut trie = Trie::new();
    trie.insert("fruit");
    trie.insert("rot");
    assert!(trie.search("fruit"));
    assert!(trie.search("rot"));
    assert!(!trie.search("ro"));
    assert!(trie.starts_with("ro"));
}

#[test]
fn test_inserted_word_survives_more_insertions() {
    let mut trie = Trie::new();
    trie.insert("ant");
    assert!(trie.search("ant"));
    trie.insert("antelope");
    trie.insert("bee");
    trie.insert("a");
    assert!(trie.search("ant"));
    assert!(trie.search("antelope"));
    assert!(trie.search("a"));
    assert!(!trie.search("an"));
}

#[test]
fn test_reinsert_changes_nothing() {
    let mut trie = Trie::new();
    trie.insert("twice");
    trie.insert("twice");
    assert!(trie.search("twice"));
    assert!(!trie.search("twic"));
    assert!(trie.starts_with("twic"));
    assert!(!trie.starts_with("twicetwice"));
}

#[test]
fn test_failed_prefix_never_extends() {
    let mut trie = Trie::new();
    trie.insert("apple");
    assert!(!trie.starts_with("x"));
    assert!(!trie.starts_with("xy"));
    assert!(!trie.starts_with("applf"));
    assert!(!trie.starts_with("applfx"));
}

#[test]
fn test_search_hit_implies_prefix_hit() {
    let mut trie = Trie::new();
    trie.insert("apple");
    assert!(trie.search("apple"));
    assert!(trie.starts_with("apple"));
}

#[test]
fn test_empty_word() {
    let mut trie = Trie::new();
    assert!(!trie.search(""));
    trie.insert("");
    assert!(trie.search(""));
    assert!(trie.starts_with(""));
    assert!(!trie.search("a"));
}

#[test]
fn test_is_lowercase_word() {
    assert!(is_lowercase_word("apple"));
    assert!(is_lowercase_word(""));
    assert!(is_lowercase_word("z"));
    assert!(!is_lowercase_word("Apple"));
    assert!(!is_lowercase_word("app le"));
    assert!(!is_lowercase_word("caf\u{e9}"));
    assert!(!is_lowercase_word("a1"));
}
