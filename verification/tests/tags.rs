use std::hash::Hasher;
use tmi_parser::{TagValue, Tags, TagsHasher};

#[test]
fn new_tags_are_empty() {
    let tags = Tags::new();
    assert_eq!(tags.len(), 0);
    assert!(tags.is_empty());
    assert_eq!(tags.get("mod"), None);
    assert!(!tags.contains_key("mod"));
    assert_eq!(tags.entry(0), None);
    assert_eq!(Tags::default(), Tags::new());
}

#[test]
fn insert_adds_a_new_key_at_the_end() {
    let mut tags = Tags::new();
    assert_eq!(tags.insert("mod", TagValue::Boolean(true)), None);
    assert_eq!(tags.insert("room-id", TagValue::Number(1337)), None);
    assert_eq!(tags.len(), 2);
    assert!(!tags.is_empty());
    assert_eq!(tags.get("mod"), Some(&TagValue::Boolean(true)));
    assert_eq!(tags.get("room-id"), Some(&TagValue::Number(1337)));
    assert_eq!(tags.get("turbo"), None);
    assert!(tags.contains_key("room-id"));
    assert_eq!(tags.entry(0), Some(("mod", TagValue::Boolean(true))));
    assert_eq!(tags.entry(1), Some(("room-id", TagValue::Number(1337))));
    assert_eq!(tags.entry(2), None);
}

#[test]
fn insert_replaces_the_value_of_a_key_in_its_place() {
    let mut tags = Tags::new();
    tags.insert("a", TagValue::Number(2));
    tags.insert("b", TagValue::Number(3));
    assert_eq!(
        tags.insert("a", TagValue::String("x")),
        Some(TagValue::Number(2))
    );
    assert_eq!(tags.len(), 2);
    assert_eq!(tags.entry(0), Some(("a", TagValue::String("x"))));
    assert_eq!(tags.entry(1), Some(("b", TagValue::Number(3))));
}

#[test]
fn keys_are_compared_byte_by_byte() {
    let mut tags = Tags::new();
    tags.insert("Mod", TagValue::Boolean(true));
    tags.insert("mod", TagValue::Boolean(false));
    tags.insert("", TagValue::Empty);
    assert_eq!(tags.len(), 3);
    assert_eq!(tags.get("Mod"), Some(&TagValue::Boolean(true)));
    assert_eq!(tags.get("mod"), Some(&TagValue::Boolean(false)));
    assert_eq!(tags.get(""), Some(&TagValue::Empty));
    assert_eq!(tags.get("mo"), None);
}

#[test]
fn tags_are_equal_in_any_order_of_insertion() {
    let mut a = Tags::new();
    a.insert("mod", TagValue::Boolean(true));
    a.insert("room-id", TagValue::Number(1337));
    let mut b = Tags::new();
    b.insert("room-id", TagValue::Number(1337));
    b.insert("mod", TagValue::Boolean(true));
    assert_eq!(a, b);
}

#[test]
fn tags_differ_by_key_value_and_size() {
    let mut a = Tags::new();
    a.insert("mod", TagValue::Boolean(true));
    let mut b = Tags::new();
    b.insert("mod", TagValue::Boolean(false));
    assert_ne!(a, b);
    let mut c = Tags::new();
    c.insert("turbo", TagValue::Boolean(true));
    assert_ne!(a, c);
    let mut d = Tags::new();
    d.insert("mod", TagValue::Boolean(true));
    d.insert("turbo", TagValue::Boolean(true));
    assert_ne!(a, d);
    assert_ne!(d, a);
    assert_ne!(a, Tags::new());
}

#[test]
fn hasher_is_fnv_1a() {
    let hasher = TagsHasher::default();
    assert_eq!(hasher.finish(), 0xcbf29ce484222325);

    let mut hasher = TagsHasher::default();
    hasher.write(b"a");
    assert_eq!(hasher.finish(), 0xaf63dc4c8601ec8c);

    let mut hasher = TagsHasher::default();
    hasher.write(b"foobar");
    assert_eq!(hasher.finish(), 0x85944171f73967e8);
}

#[test]
fn hasher_takes_its_input_in_pieces() {
    let mut whole = TagsHasher::default();
    whole.write(b"display-name");
    let mut pieces = TagsHasher::default();
    pieces.write(b"display");
    pieces.write(b"");
    pieces.write(b"-name");
    assert_eq!(whole.finish(), pieces.finish());
}

#[test]
fn value_of_a_key_is_found_again() {
    let mut map = Tags::default();
    map.insert("hello", TagValue::String("world"));
    assert_eq!(*map.get("hello").unwrap(), TagValue::String("world"));
}
