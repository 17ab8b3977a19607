use dezrevellou::models::{AuthorInfo, Comment};
use dezrevellou::store::{CreateError, Store};

fn make_comment(on: &str, body: &str) -> Comment {
    Comment {
        uid: None,
        on: on.to_string(),
        comment: body.to_string(),
        created: None,
        updated: None,
        author: AuthorInfo { name: None, website: None, email: None },
    }
}

#[test]
fn test_create_on_empty_store_assigns_id_zero() {
    let mut store = Store::new();
    let r = store.create(make_comment("page-1", "hello"), 1234);
    assert_eq!(r, Ok(0));
    let listed = store.list_by_target("page-1");
    assert_eq!(listed.len(), 1);
    assert_eq!(listed[0].uid, Some(0));
    assert_eq!(listed[0].on, "page-1");
    assert_eq!(listed[0].comment, "hello");
    assert_eq!(listed[0].created, Some(1234));
    assert_eq!(listed[0].updated, None);
}

#[test]
fn test_create_now_sets_creation_timestamp() {
    let mut store = Store::new();
    let r = store.create_now(make_comment("page-1", "hi"));
    assert_eq!(r, Ok(0));
    let listed = store.list_by_target("page-1");
    assert_eq!(listed.len(), 1);
    assert!(listed[0].created.is_some());
    assert_eq!(listed[0].updated, None);
}

#[test]
fn test_allocator_skips_taken_id() {
    let mut store = Store::new();
    let mut first = make_comment("p", "one");
    first.uid = Some(0);
    assert_eq!(store.create(first, 1), Ok(0));
    let r = store.create(make_comment("p", "two"), 2);
    assert_eq!(r, Ok(1));
}

#[test]
fn test_two_creates_get_distinct_ids() {
    let mut store = Store::new();
    let a = store.create(make_comment("p", "first"), 1).unwrap();
    let b = store.create(make_comment("p", "second"), 2).unwrap();
    assert_eq!(a, 0);
    assert_eq!(b, 1);
    assert_ne!(a, b);
}

#[test]
fn test_empty_body_is_rejected_without_side_effects() {
    let mut store = Store::new();
    let r = store.create(make_comment("page-1", ""), 1);
    assert_eq!(r, Err(CreateError::EmptyBody));
    assert_eq!(store.len(), 0);
    assert_eq!(store.list_by_target("page-1").len(), 0);
}

#[test]
fn test_duplicate_supplied_id_is_rejected_without_side_effects() {
    let mut store = Store::new();
    let mut first = make_comment("p", "one");
    first.uid = Some(5);
    assert_eq!(store.create(first, 1), Ok(5));
    let mut second = make_comment("p", "two");
    second.uid = Some(5);
    assert_eq!(store.create(second, 2), Err(CreateError::DuplicateId));
    assert_eq!(store.len(), 1);
    let listed = store.list_by_target("p");
    assert_eq!(listed.len(), 1);
    assert_eq!(listed[0].comment, "one");
}

#[test]
fn test_list_by_target_filters_in_insertion_order() {
    let mut store = Store::new();
    store.create(make_comment("a", "first"), 1).unwrap();
    store.create(make_comment("b", "other"), 2).unwrap();
    store.create(make_comment("a", "second"), 3).unwrap();
    let on_a = store.list_by_target("a");
    assert_eq!(on_a.len(), 2);
    assert_eq!(on_a[0].comment, "first");
    assert_eq!(on_a[1].comment, "second");
    let on_b = store.list_by_target("b");
    assert_eq!(on_b.len(), 1);
    assert_eq!(on_b[0].comment, "other");
    assert_eq!(store.list_by_target("c").len(), 0);
}

#[test]
fn test_next_free_id_is_smallest_absent() {
    let store = Store::new();
    assert_eq!(store.next_free_id(), Some(0));
    let mut store = Store::new();
    let mut c0 = make_comment("p", "x");
    c0.uid = Some(0);
    store.create(c0, 1).unwrap();
    let mut c2 = make_comment("p", "y");
    c2.uid = Some(2);
    store.create(c2, 2).unwrap();
    assert_eq!(store.next_free_id(), Some(1));
}

#[test]
fn test_explicit_created_is_kept() {
    let mut store = Store::new();
    let mut c = make_comment("p", "dated");
    c.created = Some(-777);
    store.create(c, 42).unwrap();
    let listed = store.list_by_target("p");
    assert_eq!(listed[0].created, Some(-777));
}
