use trie::Trie;
use trie::TrieError;

#[test]
fn test_add_and_search() {
    let mut trie = Trie::default();
    trie.add("hello");
    trie.add("hey");
    trie.add("hi");

    assert!(trie.search("hello"));
    assert!(trie.search("hey"));
    assert!(trie.search("hi"));
    assert!(!trie.search("test"));
    assert!(!trie.search("he"));
}

#[test]
fn test_delete() {
    let mut trie = Trie::default();
    trie.add("hello");
    trie.add("hey");
    trie.add("hi");

    assert!(trie.search("hello"));
    trie.delete("hello").unwrap();
    assert!(!trie.search("hello"));

    assert!(trie.search("hey"));
    trie.delete("hey").unwrap();
    assert!(!trie.search("hey"));

    assert!(trie.search("hi"));
    trie.delete("hi").unwrap();
    assert!(!trie.search("hi"));

    assert_eq!(trie.count(), 0);
}

#[test]
fn test_delete_non_existing() {
    let mut trie = Trie::default();
    trie.add("hello");

    let result = trie.delete("test");
    assert!(result.is_err());
    match result.unwrap_err() {
        TrieError::WordNotFound => (),
        _ => panic!("Expected WordNotFound error"),
    }
}

#[test]
fn test_delete_prefix() {
    let mut trie = Trie::default();
    trie.add("hello");
    trie.add("hey");

    let result = trie.delete("he");
    assert!(result.is_err());
    match result.unwrap_err() {
        TrieError::WordNotFound => (),
        _ => panic!("Expected WordNotFound error"),
    }
}

#[test]
fn round_trip_after_add() {
    let mut trie = Trie::default();
    trie.add("verse");
    assert!(trie.search("verse"));
}

#[test]
fn negative_lookup_misses_prefixes_and_strangers() {
    let mut trie = Trie::default();
    trie.add("hello");
    assert!(!trie.search("h"));
    assert!(!trie.search("he"));
    assert!(!trie.search("hell"));
    assert!(!trie.search("hellos"));
    assert!(!trie.search("world"));
}

#[test]
fn delete_only_entry_resets_count() {
    let mut trie = Trie::default();
    trie.add("solo");
    assert_eq!(trie.count(), 1);
    trie.delete("solo").unwrap();
    assert!(!trie.search("solo"));
    assert_eq!(trie.count(), 0);
}

#[test]
fn delete_preserves_siblings() {
    let mut trie = Trie::default();
    trie.add("hello");
    trie.add("hey");
    trie.delete("hello").unwrap();
    assert!(!trie.search("hello"));
    assert!(trie.search("hey"));
    assert_eq!(trie.count(), 1);
}

#[test]
fn delete_missing_leaves_count_alone() {
    let mut trie = Trie::default();
    assert!(matches!(trie.delete("test"), Err(TrieError::WordNotFound)));
    assert_eq!(trie.count(), 0);

    trie.add("apple");
    assert!(matches!(trie.delete("test"), Err(TrieError::WordNotFound)));
    assert_eq!(trie.count(), 1);
}

#[test]
fn count_tracks_adds_and_successful_deletes() {
    let mut trie = Trie::default();
    trie.add("dup");
    trie.add("dup");
    assert_eq!(trie.count(), 2);

    assert!(trie.delete("absent").is_err());
    assert_eq!(trie.count(), 2);

    trie.delete("dup").unwrap();
    assert_eq!(trie.count(), 1);
    assert!(!trie.search("dup"));

    assert!(trie.delete("dup").is_err());
    assert_eq!(trie.count(), 1);
}

#[test]
fn end_to_end_scenario() {
    let mut trie = Trie::default();
    trie.add("hello");
    trie.add("hey");
    trie.add("hi");
    assert!(trie.search("hello"));
    assert!(trie.search("hey"));
    assert!(trie.search("hi"));
    assert!(!trie.search("test"));
    assert!(!trie.search("he"));

    trie.delete("hello").unwrap();
    trie.delete("hey").unwrap();
    trie.delete("hi").unwrap();
    assert_eq!(trie.count(), 0);
    assert!(!trie.search("hello"));
    assert!(!trie.search("hey"));
    assert!(!trie.search("hi"));
}

#[test]
fn empty_word_is_a_word() {
    let mut trie = Trie::default();
    assert!(!trie.search(""));
    trie.add("");
    assert!(trie.search(""));
    assert_eq!(trie.count(), 1);
    trie.delete("").unwrap();
    assert!(!trie.search(""));
    assert_eq!(trie.count(), 0);
}

#[test]
fn words_compare_by_character() {
    let mut trie = Trie::default();
    trie.add("日本語");
    assert!(trie.search("日本語"));
    assert!(!trie.search("日本"));
    trie.delete("日本語").unwrap();
    assert_eq!(trie.count(), 0);
}
