use pathrouter::nfa::Nfa;

#[test]
fn test_nfa() {
    let mut nfa = Nfa::new();

    nfa.insert("/api/v1/post/tom/daily");
    nfa.insert("/api/v2/post/tom/daily");
    nfa.insert("/api/v1/post/:user/daily");
    nfa.insert("/api/v1/post/*any");

    println!("-> {:?}", nfa);

    let ret = nfa.search("/api/v1/post/tom/daily");

    println!("ret => {:?}", ret.as_ref().map(|m| (m.state, m.params.clone())));

    let found = ret.unwrap();
    let expected = nfa.insert("/api/v1/post/tom/daily");
    assert_eq!(found.state, expected);
    assert!(found.params.is_empty());
}

#[test]
fn test_nfa2() {
    let mut nfa = Nfa::new();

    nfa.insert("/posts/:post_id/comments/100");
    nfa.insert("/posts/100/comments/10");

    println!("-> {:?}", nfa);

    let ret = nfa.search("/posts/100/comments/100");

    println!("ret => {:?}", ret.as_ref().map(|m| (m.state, m.params.clone())));

    let found = ret.unwrap();
    let expected = nfa.insert("/posts/:post_id/comments/100");
    assert_eq!(found.state, expected);
    assert_eq!(found.params, vec![("post_id".to_string(), "100".to_string())]);
}

#[test]
fn test_nfa_merge() {
    let mut nfa = Nfa::new();

    nfa.insert("/a/b/c");
    nfa.insert("/a/b/d");
    nfa.insert("/a/b/e");

    let mut other = Nfa::new();

    other.insert("/h/i/j");
    other.insert("/h/i/k");
    other.insert("/h/i/l");

    let sub = nfa.locate("/a");

    nfa.merge(sub, &other, other.start_state());

    println!("-> {:?}", nfa);

    let ret = nfa.search("/a/h/i/k");

    println!("ret => {:?}", ret.as_ref().map(|m| (m.state, m.params.clone())));

    assert!(ret.is_some());
    assert!(nfa.search("/a/b/c").is_some());
    assert!(nfa.search("/a/h/i").is_none());
    assert!(other.search("/a/h/i/k").is_none());
    assert!(other.search("/h/i/k").is_some());
}

#[test]
fn nfa_wildcard_swallows_the_rest() {
    let mut nfa = Nfa::new();
    let wild = nfa.insert("/files/*path");
    let found = nfa.search("/files/a/b/c").unwrap();
    assert_eq!(found.state, wild);
    assert_eq!(found.params, vec![("path".to_string(), "a/b/c".to_string())]);
}

#[test]
fn nfa_no_match_on_prefix() {
    let mut nfa = Nfa::new();
    nfa.insert("/a/b");
    assert!(nfa.search("/a").is_none());
    assert!(nfa.search("/a/b/c").is_none());
    assert!(nfa.search("/a/b").is_some());
}

#[test]
fn nfa_leading_separators_are_skipped() {
    let mut nfa = Nfa::new();
    let s = nfa.insert("/a/b");
    assert_eq!(nfa.search("a/b").unwrap().state, s);
    assert_eq!(nfa.search("//a/b").unwrap().state, s);
}

#[test]
fn nfa_locate_is_idempotent() {
    let mut nfa = Nfa::new();
    let a = nfa.locate("/x/:y/z");
    let b = nfa.locate("/x/:other/z");
    assert_eq!(a, b);
    assert!(a != nfa.start_state());
}
