use pathrouter::Params;

#[test]
fn params_insert_and_find() {
    let mut p = Params::new();
    assert_eq!(p.find("a"), None);
    assert_eq!(p.insert("a", "1"), None);
    assert_eq!(p.find("a"), Some("1"));
    assert_eq!(p.insert("a", "2"), Some("1".to_string()));
    assert_eq!(p.find("a"), Some("2"));
    assert_eq!(p.index("a"), "2");
}

#[test]
fn params_empty_value_is_present() {
    let mut p = Params::new();
    p.insert("k", "");
    assert_eq!(p.find("k"), Some(""));
    assert_eq!(p.find("other"), None);
}

#[test]
fn params_remove() {
    let mut p = Params::new();
    p.insert("a", "1");
    p.insert("b", "2");
    assert_eq!(p.remove("a"), Some("1".to_string()));
    assert_eq!(p.remove("a"), None);
    assert_eq!(p.find("a"), None);
    assert_eq!(p.find("b"), Some("2"));
}

#[test]
fn params_equality_ignores_insertion_order() {
    let mut p = Params::new();
    p.insert("a", "1");
    p.insert("b", "2");
    let mut q = Params::new();
    q.insert("b", "2");
    q.insert("a", "1");
    assert_eq!(p, q);
    q.insert("a", "3");
    assert_ne!(p, q);
    let mut r = Params::new();
    r.insert("a", "1");
    assert_ne!(p, r);
    assert_eq!(Params::default(), Params::new());
}

#[test]
fn params_iter_walks_entries() {
    let mut p = Params::new();
    p.insert("x", "1");
    p.insert("y", "2");
    let mut it = p.iter();
    assert_eq!(it.size_hint(), (2, Some(2)));
    assert_eq!(it.next(), Some(("x".to_string(), "1".to_string())));
    assert_eq!(it.next(), Some(("y".to_string(), "2".to_string())));
    assert_eq!(it.next(), None);
    assert_eq!(it.size_hint(), (0, Some(0)));
    assert_eq!(p.entries().len(), 2);
}

#[test]
fn params_iterate_in_ascending_name_order() {
    let mut p = Params::new();
    p.insert("post_id", "12");
    p.insert("comment_id", "100");
    p.insert("a", "1");
    let names: Vec<String> = p.entries().into_iter().map(|(k, _)| k).collect();
    assert_eq!(names, vec!["a".to_string(), "comment_id".to_string(), "post_id".to_string()]);
    let mut it = p.iter();
    assert_eq!(it.next(), Some(("a".to_string(), "1".to_string())));
}
