use trie_index::query::{PropertyFilter, PropertyOperator, Query, QueryParseError};

#[test]
fn test_query_from_str() {
    let mut query: Query = Query::parse("@index").unwrap();
    assert_eq!(query.id, Some("index".to_string()));

    query = Query::parse("tag").unwrap();
    assert_eq!(query.tags, vec!["tag".to_string()]);

    query = Query::parse("tag1 tag2").unwrap();
    assert_eq!(query.tags, vec!["tag1".to_string(), "tag2".to_string()]);

    query = Query::parse("count=1").unwrap();
    assert_eq!(
        query.properties,
        vec![PropertyFilter {
            field: "count".to_string(),
            operator: PropertyOperator::Equals("1".to_string()),
        }]
    );
}

#[test]
fn test_query_from_str_invalid() {
    let mut query: Result<Query, _> = Query::parse("@index @index");
    assert!(query.is_err());
    assert_eq!(query.unwrap_err(), QueryParseError::DuplicateID);

    query = Query::parse("count=");
    assert!(query.is_err());
    assert_eq!(query.unwrap_err(), QueryParseError::MissingOperatorField);

    query = Query::parse("=");
    assert!(query.is_err());
    assert_eq!(query.unwrap_err(), QueryParseError::MissingOperatorArgument);
}

#[test]
fn test_query_mixed_tokens() {
    let query = Query::parse("@main count>3 year<2000 tagx").unwrap();
    assert_eq!(query.id, Some("main".to_string()));
    assert_eq!(query.tags, vec!["tagx".to_string()]);
    assert_eq!(
        query.properties,
        vec![
            PropertyFilter {
                field: "count".to_string(),
                operator: PropertyOperator::Gt("3".to_string()),
            },
            PropertyFilter {
                field: "year".to_string(),
                operator: PropertyOperator::Lt("2000".to_string()),
            },
        ]
    );
}
