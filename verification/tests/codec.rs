use dezrevellou::codec::{parse_store, serialize_store};
use dezrevellou::models::{AuthorInfo, Comment};
use dezrevellou::store::Store;

fn chars_of(text: &str) -> Vec<char> {
    text.chars().collect()
}

fn text_of(chars: Vec<char>) -> String {
    chars.into_iter().collect()
}

#[test]
fn test_serialize_empty_store() {
    let comments: Vec<Comment> = Vec::new();
    assert_eq!(text_of(serialize_store(&comments)), "[]");
}

#[test]
fn test_serialize_one_comment_exact_text() {
    let comments = vec![Comment {
        uid: Some(0),
        on: "page-1".to_string(),
        comment: "hello".to_string(),
        created: Some(5),
        updated: None,
        author: AuthorInfo {
            name: Some("Ann".to_string()),
            website: None,
            email: Some("hidden@example.net".to_string()),
        },
    }];
    let expected = "[\n  {\n    \"uid\": 0,\n    \"on\": \"page-1\",\n    \"comment\": \"hello\",\n    \"created\": 5,\n    \"author\": {\n      \"name\": \"Ann\"\n    }\n  }\n]";
    assert_eq!(text_of(serialize_store(&comments)), expected);
}

#[test]
fn test_parse_empty_store() {
    let r = parse_store(&chars_of("[]"));
    assert!(r.is_some());
    assert_eq!(r.unwrap().len(), 0);
}

#[test]
fn test_round_trip_keeps_fields_and_drops_email() {
    let comments = vec![
        Comment {
            uid: Some(3),
            on: "page \"quoted\"".to_string(),
            comment: "line one\nline two\t\\end".to_string(),
            created: Some(-123456789),
            updated: Some(987654321),
            author: AuthorInfo {
                name: Some("Ann".to_string()),
                website: Some("https://example.net".to_string()),
                email: Some("write-only@example.net".to_string()),
            },
        },
        Comment {
            uid: None,
            on: "other".to_string(),
            comment: "plain".to_string(),
            created: None,
            updated: None,
            author: AuthorInfo { name: None, website: None, email: None },
        },
    ];
    let text = serialize_store(&comments);
    let back = parse_store(&text).expect("round trip must parse");
    assert_eq!(back.len(), 2);
    assert_eq!(back[0].uid, Some(3));
    assert_eq!(back[0].on, "page \"quoted\"");
    assert_eq!(back[0].comment, "line one\nline two\t\\end");
    assert_eq!(back[0].created, Some(-123456789));
    assert_eq!(back[0].updated, Some(987654321));
    assert_eq!(back[0].author.name.as_deref(), Some("Ann"));
    assert_eq!(back[0].author.website.as_deref(), Some("https://example.net"));
    assert_eq!(back[0].author.email, None);
    assert_eq!(back[1].uid, None);
    assert_eq!(back[1].on, "other");
    assert_eq!(back[1].comment, "plain");
    assert_eq!(back[1].created, None);
    assert_eq!(back[1].updated, None);
    assert_eq!(back[1].author.name, None);
    assert_eq!(back[1].author.website, None);
    assert_eq!(back[1].author.email, None);
}

#[test]
fn test_round_trip_through_store() {
    let mut store = Store::new();
    let c = Comment {
        uid: None,
        on: "page-1".to_string(),
        comment: "hello".to_string(),
        created: None,
        updated: None,
        author: AuthorInfo { name: None, website: None, email: None },
    };
    store.create(c, 77).unwrap();
    let text = serialize_store(store.comments());
    let reloaded = Store::from_comments(parse_store(&text).unwrap());
    let listed = reloaded.list_by_target("page-1");
    assert_eq!(listed.len(), 1);
    assert_eq!(listed[0].uid, Some(0));
    assert_eq!(listed[0].comment, "hello");
    assert_eq!(listed[0].created, Some(77));
}

#[test]
fn test_parse_rejects_malformed_text() {
    assert!(parse_store(&chars_of("")).is_none());
    assert!(parse_store(&chars_of("not json")).is_none());
    assert!(parse_store(&chars_of("[")).is_none());
    assert!(parse_store(&chars_of("[] ")).is_none());
    assert!(parse_store(&chars_of("[\n  {\n    \"on\": \"x\"\n  }\n]")).is_none());
    assert!(parse_store(&chars_of("{}")).is_none());
}

#[test]
fn test_parse_rejects_oversized_numbers() {
    let too_big_uid = "[\n  {\n    \"uid\": 65536,\n    \"on\": \"x\",\n    \"comment\": \"y\",\n    \"author\": {}\n  }\n]";
    assert!(parse_store(&chars_of(too_big_uid)).is_none());
    let max_uid = too_big_uid.replace("65536", "65535");
    assert!(parse_store(&chars_of(&max_uid)).is_some());
}

#[test]
fn test_parse_without_optional_fields() {
    let text = "[\n  {\n    \"on\": \"x\",\n    \"comment\": \"y\",\n    \"author\": {}\n  }\n]";
    let r = parse_store(&chars_of(text)).expect("minimal comment must parse");
    assert_eq!(r.len(), 1);
    assert_eq!(r[0].uid, None);
    assert_eq!(r[0].on, "x");
    assert_eq!(r[0].comment, "y");
    assert_eq!(r[0].created, None);
    assert_eq!(r[0].updated, None);
}

#[test]
fn test_serialize_escapes_controls() {
    let comments = vec![Comment {
        uid: None,
        on: "p".to_string(),
        comment: "a\"b\\c\nd".to_string(),
        created: None,
        updated: None,
        author: AuthorInfo { name: None, website: None, email: None },
    }];
    let text = text_of(serialize_store(&comments));
    assert!(text.contains("a\\\"b\\\\c\\nd"));
}
