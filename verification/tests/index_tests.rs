use trie_index::article::{Article, NewArticleRequest};
use trie_index::index::{lookup_article, Error, Local, Lookup, LookupError};
use trie_index::query::{Query, QueryParseError};

fn count(index: &mut Local, q: &Query) -> usize {
    let mut it = index.search(q).unwrap();
    let mut n: usize = 0;
    while it.next().is_some() {
        n += 1;
    }
    n
}

#[test]
fn test_index() {
    let mut index = Local::new("index_test").unwrap();

    // An empty-root search on a freshly created index returns nothing.
    assert_eq!(0, count(&mut index, &Query::new()));

    let article = Article::new(&NewArticleRequest {
        id: "main".to_string(),
        tags: "tag1".to_string(),
        ..Default::default()
    });

    index.update(&article).unwrap();

    // The "all" query now yields exactly one entry.
    assert_eq!(1, count(&mut index, &Query::new()));

    // Searching by id finds that entry.
    let mut it = index.search(&Query::parse("@main").unwrap()).unwrap();
    let entry = it.next().expect("id search must find the stored article");
    assert_eq!(entry.article().id, "main");
    assert!(it.next().is_none());

    // The same entry comes back through the "all" query, tag included.
    let mut it = index.search(&Query::new()).unwrap();
    let again = it.next().unwrap().article();
    assert_eq!(again.id, "main");
    assert_eq!(again.tags, vec!["tag1".to_string()]);
    assert_eq!(again.key, article.key);

    // Tag search is a declared but unimplemented axis: it yields nothing.
    assert_eq!(0, count(&mut index, &Query::parse("tag1").unwrap()));

    // An unknown id yields an empty sequence, not an error.
    assert_eq!(0, count(&mut index, &Query::parse("@missing").unwrap()));
}

#[test]
fn test_update_conflict() {
    let mut index = Local::new("conflict_test").unwrap();
    let article = Article::new(&NewArticleRequest {
        id: "dup".to_string(),
        ..Default::default()
    });
    index.update(&article).unwrap();
    // Re-inserting the same article hits an existing path.
    match index.update(&article) {
        Err(Error::Conflict) => {}
        other => panic!("expected a conflict, got ok={}", other.is_ok()),
    }
}

#[test]
fn test_update_empty_id() {
    let mut index = Local::new("empty_id_test").unwrap();
    let article = Article::new(&NewArticleRequest {
        ..Default::default()
    });
    // An empty id would create an empty-labeled trie node.
    match index.update(&article) {
        Err(Error::InvariantViolation) => {}
        other => panic!("expected an invariant violation, got {:?}", other.is_ok()),
    }
}

#[test]
fn test_body_round_trip() {
    let mut index = Local::new("body_test").unwrap();
    let article = Article::new(&NewArticleRequest {
        id: "page".to_string(),
        body: "the raw body".to_string(),
        ..Default::default()
    });
    index.update(&article).unwrap();
    let body = index.load_article_body(&article.key).unwrap();
    assert_eq!(body, "the raw body");
    let meta = index.load_article(&article.key).unwrap();
    assert_eq!(meta.id, "page");
    // Metadata is stored without the raw body.
    assert_eq!(meta.body, "");
}

#[test]
fn test_lookup_fallback() {
    let mut index = Local::new("fallback_test").unwrap();
    match lookup_article(&mut index, "@missing") {
        Ok(Lookup::Fallback(p)) => assert_eq!(p, "templates/missing.html.hbs"),
        _ => panic!("expected the fallback template path"),
    }
    match lookup_article(&mut index, "@a @b") {
        Err(LookupError::Parse(e)) => assert_eq!(e, QueryParseError::DuplicateID),
        _ => panic!("expected a parse error"),
    }
}

#[test]
fn test_lookup_found() {
    let mut index = Local::new("found_test").unwrap();
    let article = Article::new(&NewArticleRequest {
        id: "real".to_string(),
        body: "content".to_string(),
        ..Default::default()
    });
    index.update(&article).unwrap();
    match lookup_article(&mut index, "@real") {
        Ok(Lookup::Found(e)) => {
            assert_eq!(e.article().id, "real");
            assert_eq!(e.body().unwrap(), "content");
        }
        _ => panic!("expected the stored entry"),
    }
}
