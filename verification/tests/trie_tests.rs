use trie::trie::Trie;
use trie::trie::TrieNode;

#[test]
fn test_trie_operations() {
    let mut trie = Trie::new();

    // Test insert and search
    trie.insert("hello".to_string());
    assert!(trie.search("hello".to_string()));
    assert!(!trie.search("hell".to_string()));
    assert!(!trie.search("helloa".to_string()));

    // Test starts_with
    assert!(trie.starts_with("hel".to_string()));
    assert!(!trie.starts_with("abc".to_string()));

    // Test multiple insertions
    trie.insert("hell".to_string());
    assert!(trie.search("hell".to_string()));
    assert!(trie.search("hello".to_string()));
}

#[test]
fn fresh_node_exists() {
    let _node = TrieNode::new();
}

#[test]
fn scenario_hello_hell_world() {
    let mut trie = Trie::new();
    trie.insert("hello".to_string());
    trie.insert("hell".to_string());
    trie.insert("world".to_string());

    assert!(trie.search("hello".to_string()));
    assert!(trie.search("hell".to_string()));
    assert!(trie.search("world".to_string()));
    assert!(!trie.search("hel".to_string()));

    assert!(trie.starts_with("hel".to_string()));
    assert!(!trie.starts_with("hit".to_string()));

    let words = trie.find_words_with_prefix("hel");
    assert_eq!(words, vec!["hell".to_string(), "hello".to_string()]);
}

#[test]
fn scenario_empty_trie() {
    let trie = Trie::new();
    assert!(!trie.search("".to_string()));
    assert!(trie.starts_with("".to_string()));
    let words = trie.find_words_with_prefix("");
    assert!(words.is_empty());
    assert!(!trie.search("anything".to_string()));
}

#[test]
fn scenario_a_ab_abc() {
    let mut trie = Trie::new();
    trie.insert("a".to_string());
    trie.insert("ab".to_string());
    trie.insert("abc".to_string());

    let words = trie.find_words_with_prefix("ab");
    assert_eq!(words, vec!["ab".to_string(), "abc".to_string()]);

    let none = trie.find_words_with_prefix("b");
    assert!(none.is_empty());
}

#[test]
fn insert_is_idempotent() {
    let mut once = Trie::new();
    once.insert("dup".to_string());

    let mut twice = Trie::new();
    twice.insert("dup".to_string());
    twice.insert("dup".to_string());

    assert_eq!(
        once.search("dup".to_string()),
        twice.search("dup".to_string())
    );
    assert_eq!(
        once.search("du".to_string()),
        twice.search("du".to_string())
    );
    assert_eq!(
        once.starts_with("du".to_string()),
        twice.starts_with("du".to_string())
    );
    assert_eq!(
        once.find_words_with_prefix(""),
        twice.find_words_with_prefix("")
    );
    assert_eq!(twice.find_words_with_prefix("d"), vec!["dup".to_string()]);
}

#[test]
fn empty_string_is_a_word() {
    let mut trie = Trie::new();
    trie.insert("".to_string());
    assert!(trie.search("".to_string()));
    assert!(trie.starts_with("".to_string()));
    assert_eq!(trie.find_words_with_prefix(""), vec!["".to_string()]);
    assert!(!trie.search("a".to_string()));
}

#[test]
fn enumeration_is_sorted() {
    let mut trie = Trie::new();
    trie.insert("banana".to_string());
    trie.insert("cherry".to_string());
    trie.insert("apple".to_string());
    trie.insert("app".to_string());

    let all = trie.find_words_with_prefix("");
    assert_eq!(
        all,
        vec![
            "app".to_string(),
            "apple".to_string(),
            "banana".to_string(),
            "cherry".to_string()
        ]
    );

    let ap = trie.find_words_with_prefix("app");
    assert_eq!(ap, vec!["app".to_string(), "apple".to_string()]);
}

#[test]
fn prefix_of_inserted_word_matches() {
    let mut trie = Trie::new();
    trie.insert("prefix".to_string());
    assert!(trie.starts_with("".to_string()));
    assert!(trie.starts_with("p".to_string()));
    assert!(trie.starts_with("pre".to_string()));
    assert!(trie.starts_with("prefix".to_string()));
    assert!(!trie.starts_with("prefixx".to_string()));
    assert!(!trie.starts_with("q".to_string()));
}

#[test]
fn non_ascii_words() {
    let mut trie = Trie::new();
    trie.insert("héllo".to_string());
    trie.insert("hêtre".to_string());
    assert!(trie.search("héllo".to_string()));
    assert!(!trie.search("héll".to_string()));
    assert!(trie.starts_with("hé".to_string()));
    let words = trie.find_words_with_prefix("h");
    assert_eq!(words, vec!["héllo".to_string(), "hêtre".to_string()]);
}

#[test]
fn search_distinguishes_terminal_nodes() {
    let mut trie = Trie::new();
    trie.insert("team".to_string());
    trie.insert("tea".to_string());
    assert!(trie.search("tea".to_string()));
    assert!(trie.search("team".to_string()));
    assert!(!trie.search("t".to_string()));
    assert!(!trie.search("te".to_string()));
    assert!(!trie.search("teams".to_string()));
}
