use quartz::endpoint::Endpoint;
use quartz::error::QuartzError;
use quartz::handle::EndpointHandle;
use quartz::order::{path_less, text_less};
use quartz::tree::EndpointTree;

fn h(s: &str) -> EndpointHandle {
    EndpointHandle::from_handle(s)
}

fn endpoint(url: &str, method: &str, headers: &[(&str, &str)], query: &[(&str, &str)]) -> Endpoint {
    let mut e = Endpoint::blank();
    e.url = url.to_string();
    e.method = method.to_string();
    for (k, v) in headers {
        e.headers.insert(k, v.to_string());
    }
    for (k, v) in query {
        e.query.insert(k.to_string(), v.to_string());
    }
    e
}

fn same(a: &Endpoint, b: &Endpoint) -> bool {
    let pairs = |e: &Endpoint| {
        let hs: Vec<(String, String)> = (0..e.headers.len()).map(|i| (e.headers.entry(i).key.clone(), e.headers.entry(i).value.clone())).collect();
        let qs: Vec<(String, String)> = (0..e.query.len()).map(|i| (e.query.entry(i).key.clone(), e.query.entry(i).value.clone())).collect();
        (hs, qs)
    };
    a.url == b.url && a.method == b.method && a.body == b.body && pairs(a) == pairs(b)
}

#[test]
fn write_then_resolve_round_trips() {
    let mut tree = EndpointTree::new();
    let mut written = endpoint("https://example.com/users", "POST", &[("Accept", "json")], &[("page", "1")]);
    written.body = "body".to_string();
    assert_eq!(tree.write(&h("api/users"), written.clone()), Ok(()));
    let resolved = tree.resolve(&h("api/users")).ok().unwrap();
    assert!(same(&resolved, &written));
    assert_eq!(tree.len(), 2);
}

#[test]
fn write_creates_namespace_nodes_above() {
    let mut tree = EndpointTree::new();
    tree.write(&h("a/b/c"), endpoint("https://x", "GET", &[], &[])).unwrap();
    assert!(tree.contains(&h("a")));
    assert!(tree.contains(&h("a/b")));
    assert!(tree.contains(&h("a/b/c")));
    assert!(tree.contains(&h("")));
    assert!(!tree.contains(&h("a/c")));
    assert!(tree.endpoint(&h("a")).is_none());
    assert!(tree.endpoint(&h("a/b/c")).is_some());
    let namespace = tree.resolve(&h("a/b")).ok().unwrap();
    assert_eq!(namespace.url, "");
    assert_eq!(namespace.method, "GET");
}

#[test]
fn write_refuses_an_existing_node() {
    let mut tree = EndpointTree::new();
    tree.write(&h("a/b"), endpoint("https://first", "GET", &[], &[])).unwrap();
    assert_eq!(tree.write(&h("a/b"), endpoint("https://second", "GET", &[], &[])), Err(QuartzError::AlreadyExists));
    assert_eq!(tree.write(&h("a"), endpoint("https://second", "GET", &[], &[])), Err(QuartzError::AlreadyExists));
    assert_eq!(tree.write(&h(""), endpoint("https://root", "GET", &[], &[])), Err(QuartzError::AlreadyExists));
    assert_eq!(tree.resolve(&h("a/b")).ok().unwrap().url, "https://first");
    assert_eq!(tree.len(), 2);
}

#[test]
fn update_replaces_a_stored_endpoint_only() {
    let mut tree = EndpointTree::new();
    tree.write(&h("a/b"), endpoint("https://first", "GET", &[], &[])).unwrap();
    assert_eq!(tree.update(&h("a/b"), endpoint("https://second", "PUT", &[], &[])), Ok(()));
    assert_eq!(tree.endpoint(&h("a/b")).unwrap().url, "https://second");
    assert_eq!(tree.update(&h("a"), endpoint("https://ns", "GET", &[], &[])), Err(QuartzError::NotFound));
    assert_eq!(tree.update(&h("zzz"), endpoint("https://ns", "GET", &[], &[])), Err(QuartzError::NotFound));
    assert_eq!(tree.update(&h(""), endpoint("https://ns", "GET", &[], &[])), Err(QuartzError::NotFound));
    assert_eq!(tree.len(), 2);
}

#[test]
fn resolve_inherits_from_ancestors() {
    let mut tree = EndpointTree::new();
    tree.write(&h("api"), endpoint("https://example.com", "POST", &[("Accept", "json"), ("X-Root", "r")], &[("v", "1")])).unwrap();
    tree.write(&h("api/users"), endpoint("", "", &[("accept", "xml")], &[("page", "2")])).unwrap();
    tree.write(&h("api/users/one"), endpoint("https://example.com/users/1", "", &[("X-Leaf", "l")], &[("v", "3")])).unwrap();

    let users = tree.resolve(&h("api/users")).ok().unwrap();
    assert_eq!(users.url, "https://example.com");
    assert_eq!(users.method, "POST");
    assert_eq!(users.headers.get("accept"), Some(&"xml".to_string()));
    assert_eq!(users.headers.get("x-root"), Some(&"r".to_string()));
    assert_eq!(users.query.get("v"), Some(&"1".to_string()));
    assert_eq!(users.query.get("page"), Some(&"2".to_string()));

    let one = tree.resolve(&h("api/users/one")).ok().unwrap();
    assert_eq!(one.url, "https://example.com/users/1");
    assert_eq!(one.method, "POST");
    assert_eq!(one.headers.get("accept"), Some(&"xml".to_string()));
    assert_eq!(one.headers.get("x-root"), Some(&"r".to_string()));
    assert_eq!(one.headers.get("x-leaf"), Some(&"l".to_string()));
    assert_eq!(one.query.get("v"), Some(&"3".to_string()));
    assert_eq!(one.query.get("page"), Some(&"2".to_string()));
}

#[test]
fn resolve_defaults_the_method() {
    let mut tree = EndpointTree::new();
    tree.write(&h("a"), endpoint("https://a", "", &[], &[])).unwrap();
    assert_eq!(tree.resolve(&h("a")).ok().unwrap().method, "GET");
    assert_eq!(tree.resolve(&h("")).ok().unwrap().method, "GET");
}

#[test]
fn resolve_of_a_missing_node_is_not_found() {
    let mut tree = EndpointTree::new();
    tree.write(&h("a"), endpoint("https://a", "GET", &[], &[])).unwrap();
    assert_eq!(tree.resolve(&h("b")).err(), Some(QuartzError::NotFound));
    assert_eq!(tree.resolve(&h("a/b")).err(), Some(QuartzError::NotFound));
}

#[test]
fn remove_takes_the_whole_subtree() {
    let mut tree = EndpointTree::new();
    for name in ["a", "a/b", "a/b/c", "a/d", "ab", "x/y"] {
        tree.write(&h(name), endpoint("https://x", "GET", &[], &[])).unwrap();
    }
    assert_eq!(tree.remove(&h("a")), Ok(()));
    for gone in ["a", "a/b", "a/b/c", "a/d"] {
        assert_eq!(tree.resolve(&h(gone)).err(), Some(QuartzError::NotFound), "{}", gone);
        assert!(!tree.contains(&h(gone)));
    }
    for kept in ["ab", "x", "x/y"] {
        assert!(tree.resolve(&h(kept)).is_ok(), "{}", kept);
    }
    assert_eq!(tree.remove(&h("a")), Err(QuartzError::NotFound));
    assert_eq!(tree.remove(&h("nope/deeper")), Err(QuartzError::NotFound));
    assert_eq!(tree.len(), 3);
    assert_eq!(tree.remove(&h("")), Ok(()));
    assert_eq!(tree.len(), 0);
    assert!(tree.resolve(&h("")).is_ok());
}

#[test]
fn children_are_listed_in_path_order() {
    let mut tree = EndpointTree::new();
    for name in ["b", "a/z", "a/b/c", "a-b", "a", "a/b"] {
        let _ = tree.write(&h(name), endpoint("https://x", "PUT", &[], &[]));
    }
    let all: Vec<String> = tree.children(&h(""), None).iter().map(|n| n.handle.handle()).collect();
    assert_eq!(all, vec!["a", "a/b", "a/b/c", "a/z", "a-b", "b"]);
    let under_a: Vec<String> = tree.children(&h("a"), None).iter().map(|n| n.handle.handle()).collect();
    assert_eq!(under_a, vec!["a/b", "a/b/c", "a/z"]);
    assert!(tree.children(&h("b"), None).is_empty());
    assert!(tree.children(&h("missing"), None).is_empty());
}

#[test]
fn children_are_bounded_by_depth() {
    let mut tree = EndpointTree::new();
    for name in ["a/b/c/d", "a/x", "e"] {
        tree.write(&h(name), endpoint("https://x", "PUT", &[], &[])).unwrap();
    }
    let top = tree.children(&h(""), Some(0));
    let names: Vec<(String, bool, Option<String>)> = top.iter().map(|n| (n.handle.handle(), n.more, n.method.clone())).collect();
    assert_eq!(names, vec![("a".to_string(), true, None), ("e".to_string(), false, Some("PUT".to_string()))]);
    let two = tree.children(&h(""), Some(1));
    let names: Vec<(String, bool)> = two.iter().map(|n| (n.handle.handle(), n.more)).collect();
    assert_eq!(names, vec![("a".to_string(), false), ("a/b".to_string(), true), ("a/x".to_string(), false), ("e".to_string(), false)]);
    let deep = tree.children(&h(""), Some(10));
    assert_eq!(deep.len(), 6);
    assert!(deep.iter().all(|n| !n.more));
    let below = tree.children(&h("a/b"), Some(0));
    let names: Vec<(String, bool)> = below.iter().map(|n| (n.handle.handle(), n.more)).collect();
    assert_eq!(names, vec![("a/b/c".to_string(), true)]);
}

#[test]
fn order_of_texts_and_paths() {
    assert!(text_less("a", "b"));
    assert!(text_less("a", "ab"));
    assert!(text_less("", "a"));
    assert!(!text_less("a", "a"));
    assert!(!text_less("b", "a"));
    assert!(text_less("Z", "a"));
    assert!(text_less("a-b", "a/b"));
    assert!(path_less(&h("a"), &h("a/b")));
    assert!(path_less(&h("a/b"), &h("a-b")));
    assert!(path_less(&h("a/z"), &h("b")));
    assert!(!path_less(&h("a/b"), &h("a/b")));
    assert!(!path_less(&h("b"), &h("a/z")));
    assert!(path_less(&h(""), &h("a")));
}
