use trie_index::query::Query;
use trie_index::scan::{
    find_first_matching_path, scan_articles, str_eq, str_starts_with, update_index_step, Entry,
    Index, IndexStep,
};
use trie_index::trie::Error;

struct TestIndex {}

impl Index for TestIndex {
    fn from(&self, _entry: &Entry) -> Self {
        TestIndex {}
    }

    fn find_matches(&mut self, _query: &Query) -> Result<Vec<Entry>, Error> {
        Ok(vec![Entry::Article("index".into())])
    }
}

#[test]
fn test_lookup_article() {
    let mut index = TestIndex {};

    let result: Vec<String> = vec!["index".into()];
    assert_eq!(
        scan_articles(&Query::parse("@index").unwrap(), &mut index).unwrap(),
        result
    );
}

#[test]
fn test_update_index_step() {
    let no_names: Vec<String> = vec![];
    assert!(matches!(update_index_step(&no_names, "al"), IndexStep::Create));

    // An exact match is found wherever it stands.
    let names: Vec<String> = vec!["al".into(), "be".into()];
    assert!(matches!(update_index_step(&names, "al"), IndexStep::Exists(0)));

    // ... also behind an unrelated name: a duplicate must surface as a
    // conflict, never as a fresh create.
    let names: Vec<String> = vec!["x".into(), "ab".into()];
    assert!(matches!(update_index_step(&names, "ab"), IndexStep::Exists(1)));
    let names: Vec<String> = vec!["zeta".into(), "al".into()];
    assert!(matches!(update_index_step(&names, "al"), IndexStep::Exists(1)));

    // ... and ahead of a descendable prefix.
    let names: Vec<String> = vec!["a".into(), "ab".into()];
    assert!(matches!(update_index_step(&names, "ab"), IndexStep::Exists(1)));

    // A name that prefixes the segment is descended into with the rest.
    let names: Vec<String> = vec!["al".into()];
    match update_index_step(&names, "alpha") {
        IndexStep::Descend(0, rest) => assert_eq!(rest, "pha"),
        _ => panic!("expected a descent"),
    }

    // A name the segment prefixes is a collision and never decides.
    let names: Vec<String> = vec!["alpha".into()];
    assert!(matches!(update_index_step(&names, "al"), IndexStep::Create));
}

#[test]
fn test_string_helpers() {
    assert!(str_eq("abc", "abc"));
    assert!(!str_eq("abc", "abd"));
    assert!(!str_eq("abc", "ab"));
    assert!(str_starts_with("abc", "ab"));
    assert!(str_starts_with("abc", ""));
    assert!(!str_starts_with("ab", "abc"));
    assert!(!str_starts_with("abc", "ac"));
}

#[test]
fn test_find_first_matching_path() {
    let mut index = TestIndex {};
    assert_eq!(
        find_first_matching_path(&Query::parse("@index").unwrap(), &mut index).unwrap(),
        "index"
    );
    // Without an id nothing is scanned.
    match find_first_matching_path(&Query::new(), &mut index) {
        Err(Error::NotFound) => {}
        _ => panic!("expected not-found"),
    }
}
