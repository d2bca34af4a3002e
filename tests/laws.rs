use pathrouter::{Params, Router};

fn one(key: &str, value: &str) -> Params {
    let mut p = Params::new();
    p.insert(key, value);
    p
}

#[test]
fn route_is_independent_of_registration_order() {
    let templates = ["/posts/new", "/posts/:id", "/posts/:id/edit", "/*rest", "/posts/:id/*tail"];
    let paths = ["/posts/new", "/posts/3", "/posts/3/edit", "/posts/3/a/b", "/other/x", "/posts"];
    let mut forward = Router::new();
    for (i, t) in templates.iter().enumerate() {
        forward.add(t, i);
    }
    let mut backward = Router::new();
    for (i, t) in templates.iter().enumerate().rev() {
        backward.add(t, i);
    }
    for p in paths.iter() {
        let a = forward.route(p).map(|(d, ps)| (*d, ps));
        let b = backward.route(p).map(|(d, ps)| (*d, ps));
        assert_eq!(a, b, "path {}", p);
        assert_eq!(forward.route(p).map(|(d, _)| *d), a.as_ref().map(|x| x.0));
    }
}

#[test]
fn precedence_literal_over_param_exact_values() {
    let mut router = Router::new();
    router.add("/posts/:id", "id");
    router.add("/posts/new", "new");
    let (d, p) = router.route("/posts/new").unwrap();
    assert_eq!((*d, p), ("new", Params::new()));
    let (d, p) = router.route("/posts/1").unwrap();
    assert_eq!((*d, p), ("id", one("id", "1")));
}

#[test]
fn re_registration_keeps_one_state_and_last_data() {
    let mut router = Router::new();
    router.add("/a/:b", 1);
    router.add("/a/:b", 2);
    let (d, p) = router.route("/a/x").unwrap();
    assert_eq!(*d, 2);
    assert_eq!(p, one("b", "x"));
}

#[test]
fn first_registered_param_name_is_kept() {
    let mut router = Router::new();
    router.add("/u/:first", 1);
    router.add("/u/:second", 2);
    let (d, p) = router.route("/u/7").unwrap();
    assert_eq!(*d, 2);
    assert_eq!(p, one("first", "7"));
}

#[test]
fn merge_copies_and_leaves_donor_alone() {
    let mut router = Router::new();
    let mut sub = Router::new();
    sub.add("/new", "new-post");
    let keep = sub.clone();
    router.merge("/v1/posts/", sub);
    assert_eq!(*router.route("/v1/posts/new").unwrap().0, "new-post");
    assert!(router.route("/v1/posts").is_none());
    assert_eq!(*keep.route("/new").unwrap().0, "new-post");
    assert!(keep.route("/v1/posts/new").is_none());
}

#[test]
fn at_or_default_on_fresh_router() {
    let mut router: Router<u32> = Router::default();
    assert_eq!(*router.at_or_default("/a/b/c"), 0);
    *router.at_or_default("/a/b/c") += 5;
    assert_eq!(*router.route("/a/b/c").unwrap().0, 5);
    assert_eq!(router.route("/a/b/c").unwrap().1, Params::new());
}

#[test]
fn empty_and_root_paths() {
    let mut router = Router::new();
    assert!(router.route("/").is_none());
    router.add("/", "root");
    assert_eq!(*router.route("/").unwrap().0, "root");
    assert_eq!(*router.route("").unwrap().0, "root");
    assert!(router.route("/x").is_none());
}

#[test]
fn empty_interior_segment_is_literal() {
    let mut router = Router::new();
    router.add("/a//b", "gap");
    assert_eq!(*router.route("/a//b").unwrap().0, "gap");
    assert!(router.route("/a/b").is_none());
}

#[test]
fn wildcard_needs_at_least_one_segment_and_loses_to_longer_match() {
    let mut router = Router::new();
    router.add("/a/*rest", "wild");
    router.add("/a/:x/c", "param");
    assert_eq!(*router.route("/a/q/c").unwrap().0, "param");
    let (d, p) = router.route("/a/q/d").unwrap();
    assert_eq!(*d, "wild");
    assert_eq!(p, one("rest", "q/d"));
    assert!(router.route("/a").is_none());
}

#[test]
fn first_difference_decides_before_length() {
    let mut router = Router::new();
    router.add("/x/*w", "wild");
    router.add("/:p/y/z", "param");
    let (d, p) = router.route("/x/y/z").unwrap();
    assert_eq!(*d, "wild");
    assert_eq!(p, one("w", "y/z"));
}
