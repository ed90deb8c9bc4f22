use trie_index::article::{
    datetime_to_filename, slug_from_title, stamp_display_string, Article, NewArticleRequest,
    Stamp,
};

#[test]
fn test_new() {
    Article::new(&NewArticleRequest {
        ..Default::default()
    });
}

#[test]
fn test_slug() {
    assert_eq!(slug_from_title("abcd"), "abcd");
    assert_eq!(slug_from_title("a!@#bcd"), "a_bcd");
    assert_eq!(slug_from_title("number 10"), "number_10");
    assert_eq!(slug_from_title(""), "");
}

fn prop<'a>(a: &'a Article, name: &str) -> Option<&'a str> {
    a.properties
        .iter()
        .find(|(k, _)| k == name)
        .map(|(_, v)| v.as_str())
}

#[test]
fn test_new_fields() {
    let article = Article::new(&NewArticleRequest {
        id: "my-id".to_string(),
        title: "A Title".to_string(),
        body: "hello".to_string(),
        properties: "a:1 b:2 a:3".to_string(),
        tags: "x y x".to_string(),
    });
    assert_eq!(article.id, "my-id");
    assert_eq!(article.title, "A Title");
    assert_eq!(article.body, "hello");
    assert_eq!(article.key.len(), 26);
    // A later binding of the same property name wins.
    assert_eq!(prop(&article, "a"), Some("3"));
    assert_eq!(prop(&article, "b"), Some("2"));
    // The five derived properties exist.
    for name in ["timestamp", "epoch", "year", "month", "day"] {
        assert!(prop(&article, name).is_some(), "missing {}", name);
    }
    // Duplicate tags collapse; first occurrences keep their order.
    assert_eq!(article.tags, vec!["x".to_string(), "y".to_string()]);
}

#[test]
fn test_epoch_round_trip() {
    let article = Article::new(&NewArticleRequest {
        ..Default::default()
    });
    let epoch = article.epoch();
    assert_eq!(prop(&article, "epoch"), Some(epoch.to_string().as_str()));
    assert_eq!(article.timestamp(), prop(&article, "timestamp").unwrap());
}

#[test]
fn test_datetime_to_filename() {
    let st = Stamp {
        epoch: 1577934245,
        year: 2020,
        month: 1,
        day: 2,
        hour: 3,
        minute: 4,
        second: 5,
        nanos: 60,
    };
    assert_eq!(datetime_to_filename(&st), "20200102030405.000000060");
    // A leap second carries into the second field and keeps the
    // fraction at nine digits, so names stay fixed-width.
    let st2 = Stamp {
        epoch: 0,
        year: 985,
        month: 12,
        day: 31,
        hour: 23,
        minute: 59,
        second: 58,
        nanos: 1_999_999_999,
    };
    assert_eq!(datetime_to_filename(&st2), "09851231235959.999999999");
}

#[test]
fn test_filename_sorts_chronologically() {
    let base = Stamp {
        epoch: 0,
        year: 2024,
        month: 6,
        day: 30,
        hour: 23,
        minute: 59,
        second: 59,
        nanos: 500_000_000,
    };
    let leap = Stamp { nanos: 1_500_000_000, ..base };
    let next_day = Stamp {
        month: 7,
        day: 1,
        hour: 0,
        minute: 0,
        second: 0,
        nanos: 0,
        ..base
    };
    let a = datetime_to_filename(&base);
    let b = datetime_to_filename(&leap);
    let c = datetime_to_filename(&next_day);
    assert_eq!(a, "20240630235959.500000000");
    assert_eq!(b, "20240630235960.500000000");
    assert!(a < b);
    assert!(b < c);
}

#[test]
fn test_timestamp_display() {
    let base = Stamp {
        epoch: 0,
        year: 2020,
        month: 1,
        day: 2,
        hour: 3,
        minute: 4,
        second: 5,
        nanos: 0,
    };
    // No fraction when the sub-second part is zero.
    assert_eq!(stamp_display_string(&base), "2020-01-02 03:04:05 UTC");
    // The fraction is trimmed to the shortest of 3, 6 or 9 digits.
    let milli = Stamp { nanos: 500_000_000, ..base };
    assert_eq!(stamp_display_string(&milli), "2020-01-02 03:04:05.500 UTC");
    let micro = Stamp { nanos: 123_456_000, ..base };
    assert_eq!(stamp_display_string(&micro), "2020-01-02 03:04:05.123456 UTC");
    let nano = Stamp { nanos: 123_456_789, ..base };
    assert_eq!(stamp_display_string(&nano), "2020-01-02 03:04:05.123456789 UTC");
    // A leap second shows as second 60, with the excess removed.
    let leap = Stamp { second: 59, nanos: 1_234_567_890, ..base };
    assert_eq!(stamp_display_string(&leap), "2020-01-02 03:04:60.234567890 UTC");
}
