use trie_index::prefix::common_prefix;
use trie_index::trie::{Error, TrieStore};

fn dirs(t: &TrieStore) -> Vec<String> {
    t.dir_paths()
}

#[test]
fn test_common_prefix() {
    assert_eq!(common_prefix("a", "b"), ("", "a", "b"));
    assert_eq!(common_prefix("a", "a"), ("a", "", ""));
    assert_eq!(common_prefix("aa", "aa"), ("aa", "", ""));
    assert_eq!(common_prefix("aab", "aac"), ("aa", "b", "c"));
}

#[test]
fn test_update_dir_trie() {
    let mut t = TrieStore::new();
    assert!(dirs(&t).is_empty());

    let mut out = t.insert("a", "").unwrap();
    assert_eq!(out.last().unwrap(), "a");
    assert_eq!(dirs(&t), ["a"]);

    out = t.insert("b", "").unwrap();
    assert_eq!(out.last().unwrap(), "b");
    assert_eq!(dirs(&t), ["a", "b"]);

    // Sees an existing root part of the branch, splits off the "b"
    out = t.insert("ab", "").unwrap();
    assert_eq!(out.join("/"), "a/b");
    assert_eq!(dirs(&t), ["a", "a/b", "b"]);

    // Create a longer path that will be split later
    out = t.insert("da", "").unwrap();
    assert_eq!(out.join("/"), "da");
    assert_eq!(dirs(&t), ["a", "a/b", "b", "da"]);

    out = t.insert("d", "").unwrap();
    assert_eq!(out.join("/"), "d");
    assert_eq!(dirs(&t), ["a", "a/b", "b", "d", "d/a"]);

    // Tests move contents
    out = t.insert("caa", "").unwrap();
    assert_eq!(out.join("/"), "caa");
    assert_eq!(dirs(&t), ["a", "a/b", "b", "caa", "d", "d/a"]);

    out = t.insert("ca", "").unwrap();
    assert_eq!(out.join("/"), "ca");
    assert_eq!(dirs(&t), ["a", "a/b", "b", "ca", "ca/a", "d", "d/a"]);

    out = t.insert("c", "").unwrap();
    assert_eq!(out.join("/"), "c");
    assert_eq!(dirs(&t), ["a", "a/b", "b", "c", "c/a", "c/a/a", "d", "d/a"]);

    // Tests recursion
    out = t.insert("caab", "").unwrap();
    assert_eq!(out.join("/"), "c/a/a/b");
    assert_eq!(
        dirs(&t),
        ["a", "a/b", "b", "c", "c/a", "c/a/a", "c/a/a/b", "d", "d/a"]
    );

    // Tests where two paths have a shared root but don't neatly fit into each other
    out = t.insert("eea", "").unwrap();
    assert_eq!(out.join("/"), "eea");
    assert_eq!(
        dirs(&t),
        ["a", "a/b", "b", "c", "c/a", "c/a/a", "c/a/a/b", "d", "d/a", "eea"]
    );

    out = t.insert("eeb", "").unwrap();
    assert_eq!(out.join("/"), "ee/b");
    assert_eq!(
        dirs(&t),
        ["a", "a/b", "b", "c", "c/a", "c/a/a", "c/a/a/b", "d", "d/a", "ee", "ee/a", "ee/b"]
    );
}

#[test]
fn test_insert_conflict() {
    let mut t = TrieStore::new();
    t.insert("abc", "p1").unwrap();
    assert_eq!(t.insert("abc", "p2"), Err(Error::Conflict));
    // An intermediate node created by a split also counts as existing.
    t.insert("abd", "p3").unwrap();
    assert_eq!(t.insert("ab", "p4"), Err(Error::Conflict));
    // The payload of the first insert is untouched.
    assert_eq!(t.get_payload("abc"), Some("p1".to_string()));
}

#[test]
fn test_insert_empty_key() {
    let mut t = TrieStore::new();
    assert_eq!(t.insert("", "p"), Err(Error::InvariantViolation));
    assert!(dirs(&t).is_empty());
}

#[test]
fn test_locate_after_insert() {
    let mut t = TrieStore::new();
    for key in ["a", "b", "ab", "da", "d", "caa", "ca", "c"] {
        let inserted = t.insert(key, &format!("payload-{}", key)).unwrap();
        let found = t.locate(key).expect("freshly inserted key must be found");
        assert_eq!(found, inserted);
        assert_eq!(found.concat(), key);
        assert_eq!(t.get_payload(key), Some(format!("payload-{}", key)));
    }
    // Splitting "caa" into ca/a and then c/a/a kept every payload readable.
    assert_eq!(t.get_payload("caa"), Some("payload-caa".to_string()));
    assert_eq!(t.get_payload("ca"), Some("payload-ca".to_string()));
    // A chain without a payload is locatable but carries none.
    let mut t2 = TrieStore::new();
    t2.insert("eea", "x").unwrap();
    t2.insert("eeb", "y").unwrap();
    assert!(t2.locate("ee").is_some());
    assert_eq!(t2.get_payload("ee"), None);
    assert!(t2.locate("e").is_none());
}

#[test]
fn test_enumerate_exact_keys() {
    let mut t = TrieStore::new();
    let inserted = ["a", "b", "ab", "da", "d", "caa", "ca", "c", "caab", "eea", "eeb"];
    for key in inserted {
        t.insert(key, key).unwrap();
    }
    let keys: Vec<String> = t
        .enumerate()
        .into_iter()
        .map(|path| path.concat())
        .collect();
    // Exactly the inserted keys, each once, in lexicographic order.
    let mut expected: Vec<String> = inserted.iter().map(|s| s.to_string()).collect();
    expected.sort();
    assert_eq!(keys, expected);
    // The intermediate "ee" node carries no payload and is not yielded.
    assert!(!keys.contains(&"ee".to_string()));
}
