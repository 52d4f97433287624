use quartz::error::QuartzError;
use quartz::headers::Headers;
use quartz::pairs::PairMap;

fn entries(map: &PairMap) -> Vec<(String, String)> {
    (0..map.len()).map(|i| (map.entry(i).key.clone(), map.entry(i).value.clone())).collect()
}

fn header_entries(map: &Headers) -> Vec<(String, String)> {
    (0..map.len()).map(|i| (map.entry(i).key.clone(), map.entry(i).value.clone())).collect()
}

fn pair(k: &str, v: &str) -> (String, String) {
    (k.to_string(), v.to_string())
}

#[test]
fn pair_map_keeps_order_and_replaces_in_place() {
    let mut map = PairMap::new();
    assert_eq!(map.len(), 0);
    assert_eq!(map.insert("b".to_string(), "1".to_string()), None);
    assert_eq!(map.insert("a".to_string(), "2".to_string()), None);
    assert_eq!(map.insert("b".to_string(), "3".to_string()), Some("1".to_string()));
    assert_eq!(entries(&map), vec![pair("b", "3"), pair("a", "2")]);
    assert_eq!(map.get("b"), Some(&"3".to_string()));
    assert_eq!(map.get("c"), None);
    assert!(map.contains_key("a"));
    assert!(!map.contains_key("A"));
}

#[test]
fn pair_map_remove_gives_back_the_value() {
    let mut map = PairMap::new();
    map.insert("a".to_string(), "1".to_string());
    map.insert("b".to_string(), "2".to_string());
    map.insert("c".to_string(), "3".to_string());
    assert_eq!(map.remove("b"), Some("2".to_string()));
    assert_eq!(map.remove("b"), None);
    assert_eq!(entries(&map), vec![pair("a", "1"), pair("c", "3")]);
}

#[test]
fn pair_map_set_reads_key_value_inputs() {
    let mut map = PairMap::new();
    assert_eq!(map.set("HOST=example.com"), Ok(()));
    assert_eq!(map.set("q='a b'"), Ok(()));
    assert_eq!(map.set("r=\"x=y\""), Ok(()));
    assert_eq!(map.set("empty="), Ok(()));
    assert_eq!(entries(&map), vec![pair("HOST", "example.com"), pair("q", "a b"), pair("r", "x=y"), pair("empty", "")]);
    assert_eq!(map.set("no separator"), Err(QuartzError::MalformedInput));
    assert_eq!(map.len(), 4);
}

#[test]
fn pair_map_merge_overrides_and_preserves() {
    let mut dest = PairMap::new();
    dest.insert("only_dest".to_string(), "d".to_string());
    dest.insert("both".to_string(), "old".to_string());
    let mut src = PairMap::new();
    src.insert("both".to_string(), "new".to_string());
    src.insert("only_src".to_string(), "s".to_string());
    dest.merge(&src);
    assert_eq!(entries(&dest), vec![pair("only_dest", "d"), pair("both", "new"), pair("only_src", "s")]);
}

#[test]
fn pair_map_fill_never_overrides() {
    let mut base = PairMap::new();
    base.insert("both".to_string(), "mine".to_string());
    let mut extra = PairMap::new();
    extra.insert("both".to_string(), "theirs".to_string());
    extra.insert("new".to_string(), "n".to_string());
    base.fill(&extra);
    assert_eq!(entries(&base), vec![pair("both", "mine"), pair("new", "n")]);
}

#[test]
fn pair_map_render_and_revalue() {
    let mut map = PairMap::new();
    map.insert("a".to_string(), "1".to_string());
    map.insert("b".to_string(), "2".to_string());
    assert_eq!(map.render("="), "a=1\nb=2\n");
    map.revalue(0, "9".to_string());
    assert_eq!(map.render(": "), "a: 9\nb: 2\n");
    assert_eq!(PairMap::new().render("="), "");
    assert_eq!(entries(&map.clone()), entries(&map));
}

#[test]
fn headers_ignore_case_of_names() {
    let mut headers = Headers::new();
    assert_eq!(headers.insert("Content-Type", "text/plain".to_string()), None);
    assert_eq!(headers.insert("content-type", "application/json".to_string()), Some("text/plain".to_string()));
    assert_eq!(header_entries(&headers), vec![pair("content-type", "application/json")]);
    assert_eq!(headers.get("CONTENT-TYPE"), Some(&"application/json".to_string()));
    assert!(headers.contains_key("Content-type"));
    assert_eq!(headers.remove("CONTENT-type"), Some("application/json".to_string()));
    assert_eq!(headers.len(), 0);
}

#[test]
fn headers_set_reads_header_inputs() {
    let mut headers = Headers::new();
    assert_eq!(headers.set("Accept: text/html"), Ok(()));
    assert_eq!(headers.set("X-Note: a: b"), Ok(()));
    assert_eq!(headers.set("Accept:text/html"), Err(QuartzError::MalformedInput));
    assert_eq!(headers.set("Accept"), Err(QuartzError::MalformedInput));
    assert_eq!(header_entries(&headers), vec![pair("accept", "text/html"), pair("x-note", "a: b")]);
    assert_eq!(headers.render(), "accept: text/html\nx-note: a: b\n");
}

#[test]
fn headers_merge_and_fill() {
    let mut endpoint = Headers::new();
    endpoint.insert("Accept", "a".to_string());
    let mut scope = Headers::new();
    scope.insert("accept", "b".to_string());
    scope.insert("Authorization", "token".to_string());
    let mut filled = endpoint.clone();
    filled.fill(&scope);
    assert_eq!(header_entries(&filled), vec![pair("accept", "a"), pair("authorization", "token")]);
    let mut merged = endpoint.clone();
    merged.merge(&scope);
    assert_eq!(header_entries(&merged), vec![pair("accept", "b"), pair("authorization", "token")]);
    merged.revalue(1, "other".to_string());
    assert_eq!(merged.get("authorization"), Some(&"other".to_string()));
}
