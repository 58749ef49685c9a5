use osmgraph::tags::Tags;

#[test]
fn various() {
    let mut tags = Tags::empty();

    tags.insert("key", "value");
    assert!(tags.is("key", "value"));
    assert!(tags.is_any("key", vec!["val1", "val2", "value"]));
}

#[test]
fn lookup_and_removal() {
    let mut tags = Tags::empty();
    assert!(!tags.has("highway"));
    assert_eq!(tags.get("highway"), None);

    tags.insert("highway", "residential");
    tags.insert("name", "Main Street");
    assert!(tags.has("highway"));
    assert_eq!(tags.get("name").map(|s| s.as_str()), Some("Main Street"));
    assert!(tags.has_any(vec!["foo", "name"]));
    assert!(!tags.has_any(vec!["foo", "bar"]));
    assert!(tags.is_any_key(vec!["road", "highway"], "residential"));
    assert!(!tags.is_any_key(vec!["road", "highway"], "primary"));

    // Overwriting keeps one entry per key.
    tags.insert("highway", "primary");
    assert!(tags.is("highway", "primary"));
    assert!(!tags.is("highway", "residential"));

    assert_eq!(tags.remove("highway"), Some("primary".to_string()));
    assert_eq!(tags.remove("highway"), None);
    assert!(!tags.has("highway"));
    assert!(tags.has("name"));
}

#[test]
fn clones_are_equal_maps() {
    let mut tags = Tags::empty();
    tags.insert("a", "1");
    tags.insert("b", "2");
    let copy = tags.clone();
    assert_eq!(copy.get("a").map(|s| s.as_str()), Some("1"));
    assert_eq!(copy.get("b").map(|s| s.as_str()), Some("2"));
}
