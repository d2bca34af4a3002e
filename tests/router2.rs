use pathrouter::{Params, Router2};

fn one(key: &str, value: &str) -> Params {
    let mut p = Params::new();
    p.insert(key, value);
    p
}

#[test]
fn router2_basic() {
    let mut router = Router2::new();
    router.add("/hello", "Hello");
    router.add("/hell", "Hell");
    router.add("/world", "World");
    let (endpoint, params) = router.route("/hello").unwrap();
    assert_eq!(*endpoint, "Hello");
    assert_eq!(params, Params::new());
    assert!(router.route("/nothing").is_none());
}

#[test]
fn router2_literal_before_param() {
    for order in 0..2 {
        let mut router = Router2::new();
        if order == 0 {
            router.add("/posts/new", "new");
            router.add("/posts/:id", "id");
        } else {
            router.add("/posts/:id", "id");
            router.add("/posts/new", "new");
        }
        let (endpoint, params) = router.route("/posts/new").unwrap();
        assert_eq!(*endpoint, "new");
        assert_eq!(params, Params::new());
        let (endpoint, params) = router.route("/posts/1").unwrap();
        assert_eq!(*endpoint, "id");
        assert_eq!(params, one("id", "1"));
    }
}

#[test]
fn router2_wildcard_takes_rest() {
    let mut router = Router2::new();
    router.add("/a/*b", "ab");
    router.add("/a/:b/c", "abc");
    let (endpoint, params) = router.route("/a/foo/bar").unwrap();
    assert_eq!(*endpoint, "ab");
    assert_eq!(params, one("b", "foo/bar"));
    let (endpoint, params) = router.route("/a/foo/c").unwrap();
    assert_eq!(*endpoint, "abc");
    assert_eq!(params, one("b", "foo"));
}

#[test]
fn router2_unnamed_parameters() {
    let mut router = Router2::new();
    router.add("/foo/:/bar", "test");
    let (endpoint, params) = router.route("/foo/test/bar").unwrap();
    assert_eq!(*endpoint, "test");
    assert_eq!(params, Params::new());
}

#[test]
fn router2_at_or_default_round_trip() {
    let mut router: Router2<Vec<u32>> = Router2::default();
    assert!(router.at_or_default("/a/b/c").is_empty());
    router.at_or_default("/a/b/c").push(7);
    assert_eq!(*router.route("/a/b/c").unwrap().0, vec![7]);
}

#[test]
fn router2_merge() {
    let mut router = Router2::new();
    router.add("/v1/posts", "posts1");
    let mut sub = Router2::new();
    sub.add("/new", "new-post");
    sub.add("/:id", "one-post");
    router.merge("/v1/posts/", sub);
    assert_eq!(*router.route("/v1/posts").unwrap().0, "posts1");
    assert_eq!(*router.route("/v1/posts/new").unwrap().0, "new-post");
    let (endpoint, params) = router.route("/v1/posts/9").unwrap();
    assert_eq!(*endpoint, "one-post");
    assert_eq!(params, one("id", "9"));
}

#[test]
fn router2_readd_overwrites() {
    let mut router = Router2::new();
    router.add("/x", 1);
    router.add("/x", 2);
    assert_eq!(*router.route("/x").unwrap().0, 2);
}
