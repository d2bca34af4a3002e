use pathrouter::tree::{Segments, Tree};

fn simple_search<'a, T>(tree: &'a Tree<T>, path: &str) -> Option<&'a T> {
    tree.search(path).map(|(v, _p)| v)
}

#[test]
fn test_segments() {
    let input = "/a/bc/d/efg";

    let mut segs = Segments::new(input);

    let mut seen = Vec::new();
    for _ in 0..10 {
        let seg = segs.next();

        println!("{seg:?} - {:?}", segs.reminder());

        if let Some(s) = seg {
            seen.push(s);
        }
    }

    assert_eq!(seen, vec!["a", "bc", "d", "efg"]);
    assert_eq!(segs.reminder(), "efg");
}

#[test]
fn segments_reminder_keeps_separators() {
    let mut segs = Segments::new("/a/bc/d");
    assert_eq!(segs.reminder(), "a/bc/d");
    assert_eq!(segs.next(), Some("a".to_string()));
    assert_eq!(segs.next(), Some("bc".to_string()));
    assert_eq!(segs.reminder(), "bc/d");
}

#[test]
fn test_tree() {
    let mut tree: Tree<&'static str> = Tree::new();

    tree.insert("/a/b/c", "/a/b/c");
    tree.insert("/a/b/d", "/a/b/d");
    tree.insert("/a/c", "/a/c");
    tree.insert("/a/c/:f", "/a/c/:f");
    tree.insert("/h/i/j", "/h/i/j");

    tree.insert("/o/:p/*q", "/o/:p/*q");

    tree.insert("/r/:s/t", "/r/:s/t");
    tree.insert("/r/*u", "/r/*u");

    tree.insert("/*", "/*");

    println!("{tree:?}");

    assert_eq!(simple_search(&tree, "/a/b/c"), Some(&"/a/b/c"));
    assert_eq!(simple_search(&tree, "/a/c"), Some(&"/a/c"));
    assert_eq!(simple_search(&tree, "/a/c/f"), Some(&"/a/c/:f"));

    assert_eq!(simple_search(&tree, "/h/i/j"), Some(&"/h/i/j"));

    assert_eq!(simple_search(&tree, "/o/p/q"), Some(&"/o/:p/*q"));

    assert_eq!(simple_search(&tree, "/r/s/t"), Some(&"/r/:s/t"));
    assert_eq!(simple_search(&tree, "/r/uuuuu/vvvv/wwww"), Some(&"/r/*u"));

    assert_eq!(simple_search(&tree, "/e/f/g"), Some(&"/*"));
}

#[test]
fn test_tree_b() {
    let mut tree: Tree<&'static str> = Tree::new();

    tree.insert("/posts/:post_id/comments/:comment_id", "comment");

    println!("{tree:?}");

    tree.insert("/posts/:post_id/comments", "comments");

    println!("{tree:?}");

    assert_eq!(
        simple_search(&tree, "/posts/12/comments/100"),
        Some(&"comment")
    );
}

#[test]
fn tree_captures_in_path_order() {
    let mut tree: Tree<u32> = Tree::new();
    tree.insert("/posts/:post_id/comments/:comment_id", 1);
    let (d, p) = tree.search("/posts/12/comments/100").unwrap();
    assert_eq!(*d, 1);
    assert_eq!(
        p,
        vec![
            ("post_id".to_string(), "12".to_string()),
            ("comment_id".to_string(), "100".to_string())
        ]
    );
}

#[test]
fn tree_greedy_descent_falls_back_to_wildcard() {
    let mut tree: Tree<&'static str> = Tree::new();
    tree.insert("/a/*rest", "wild");
    tree.insert("/a/b/c", "abc");
    assert_eq!(simple_search(&tree, "/a/b/c"), Some(&"abc"));
    let (d, p) = tree.search("/a/b/x").unwrap();
    assert_eq!(*d, "wild");
    assert_eq!(p, vec![("rest".to_string(), "b/x".to_string())]);
    assert_eq!(simple_search(&tree, "/a/b"), Some(&"wild"));
}

#[test]
fn tree_merge_grafts_a_copy() {
    let mut tree: Tree<&'static str> = Tree::new();
    tree.insert("/v1", "v1");
    let mut other: Tree<&'static str> = Tree::new();
    other.insert("/x/:id", "x");
    tree.merge("/v1", other);
    assert_eq!(simple_search(&tree, "/v1"), Some(&"v1"));
    let (d, p) = tree.search("/v1/x/7").unwrap();
    assert_eq!(*d, "x");
    assert_eq!(p, vec![("id".to_string(), "7".to_string())]);
}
