use quartz::cookie::{Cookie, CookieJar};
use quartz::error::QuartzError;

fn cookie(domain: &str, name: &str, value: &str) -> Cookie {
    Cookie { domain: domain.to_string(), name: name.to_string(), value: value.to_string() }
}

fn contents(jar: &CookieJar) -> Vec<(String, String, String)> {
    (0..jar.len()).map(|i| {
        let c = jar.entry(i);
        (c.domain.clone(), c.name.clone(), c.value.clone())
    }).collect()
}

#[test]
fn setting_a_cookie_twice_keeps_the_latest() {
    let mut jar = CookieJar::new();
    assert_eq!(jar.insert(cookie("example.com", "session", "first")), Ok(()));
    assert_eq!(jar.insert(cookie("example.com", "other", "x")), Ok(()));
    assert_eq!(jar.insert(cookie("example.com", "session", "second")), Ok(()));
    assert_eq!(jar.len(), 2);
    assert_eq!(jar.get("example.com", "session"), Some(&"second".to_string()));
    assert_eq!(contents(&jar)[0], ("example.com".to_string(), "session".to_string(), "second".to_string()));
}

#[test]
fn cookies_are_keyed_by_domain_and_name() {
    let mut jar = CookieJar::new();
    jar.insert(cookie("a.com", "id", "1")).unwrap();
    jar.insert(cookie("b.com", "id", "2")).unwrap();
    jar.insert(cookie("a.com", "ID", "3")).unwrap();
    assert_eq!(jar.len(), 3);
    assert_eq!(jar.get("a.com", "id"), Some(&"1".to_string()));
    assert_eq!(jar.get("b.com", "id"), Some(&"2".to_string()));
    assert_eq!(jar.get("c.com", "id"), None);
}

#[test]
fn jar_round_trips_through_its_file() {
    let mut jar = CookieJar::new();
    jar.insert(cookie("example.com", "session", "abc=def; x")).unwrap();
    jar.insert(cookie("api.example.com", "", "")).unwrap();
    jar.insert(cookie("", "theme", "dark\tmode")).unwrap();
    let text = jar.render();
    assert_eq!(text, "example.com\tsession\tabc=def; x\napi.example.com\t\t\n\ttheme\tdark\tmode\n");
    let back = CookieJar::parse(&text).ok().unwrap();
    assert_eq!(contents(&back), contents(&jar));
    assert_eq!(back.render(), text);
    assert_eq!(CookieJar::new().render(), "");
    assert_eq!(CookieJar::parse("").ok().unwrap().len(), 0);
}

#[test]
fn jar_file_may_lack_the_last_line_break_and_hold_empty_lines() {
    let jar = CookieJar::parse("a.com\tk\tv\n\nb.com\tk\tw").ok().unwrap();
    assert_eq!(contents(&jar), vec![
        ("a.com".to_string(), "k".to_string(), "v".to_string()),
        ("b.com".to_string(), "k".to_string(), "w".to_string()),
    ]);
    let jar = CookieJar::parse("a.com\tk\tv\na.com\tk\tw\n").ok().unwrap();
    assert_eq!(contents(&jar), vec![("a.com".to_string(), "k".to_string(), "w".to_string())]);
}

#[test]
fn unreadable_jar_file_is_malformed() {
    assert_eq!(CookieJar::parse("not a cookie line\n").err(), Some(QuartzError::MalformedInput));
    assert_eq!(CookieJar::parse("a.com\tonly-name\n").err(), Some(QuartzError::MalformedInput));
    assert_eq!(CookieJar::parse("a.com\tk\tv\nbroken\n").err(), Some(QuartzError::MalformedInput));
}

#[test]
fn cookies_that_a_file_cannot_hold_are_refused() {
    let mut jar = CookieJar::new();
    jar.insert(cookie("a.com", "k", "v")).unwrap();
    assert_eq!(jar.insert(cookie("a\t.com", "k", "v")), Err(QuartzError::MalformedInput));
    assert_eq!(jar.insert(cookie("a.com\n", "k", "v")), Err(QuartzError::MalformedInput));
    assert_eq!(jar.insert(cookie("a.com", "k\tx", "v")), Err(QuartzError::MalformedInput));
    assert_eq!(jar.insert(cookie("a.com", "k\n", "v")), Err(QuartzError::MalformedInput));
    assert_eq!(jar.insert(cookie("a.com", "k", "v\nw")), Err(QuartzError::MalformedInput));
    assert_eq!(contents(&jar), vec![("a.com".to_string(), "k".to_string(), "v".to_string())]);
}

#[test]
fn set_reads_a_set_cookie_header() {
    let mut jar = CookieJar::new();
    assert_eq!(jar.set("example.com", "session=abc123; Path=/; HttpOnly"), Ok(()));
    assert_eq!(jar.set("example.com", " theme = dark "), Ok(()));
    assert_eq!(jar.set("example.com", "token=a=b"), Ok(()));
    assert_eq!(jar.get("example.com", "session"), Some(&"abc123".to_string()));
    assert_eq!(jar.get("example.com", "theme"), Some(&"dark".to_string()));
    assert_eq!(jar.get("example.com", "token"), Some(&"a=b".to_string()));
    assert_eq!(jar.set("example.com", "session=next"), Ok(()));
    assert_eq!(jar.get("example.com", "session"), Some(&"next".to_string()));
    assert_eq!(jar.len(), 3);
    assert_eq!(jar.set("example.com", "no-pair; Path=/"), Err(QuartzError::MalformedInput));
    assert_eq!(jar.set("example.com", "Path only; a=b"), Err(QuartzError::MalformedInput));
    assert_eq!(jar.set("bad\thost", "a=b"), Err(QuartzError::MalformedInput));
    assert_eq!(jar.len(), 3);
}

#[test]
fn merge_is_the_union_with_the_later_jar_winning() {
    let mut kept = CookieJar::new();
    kept.insert(cookie("a.com", "old", "1")).unwrap();
    kept.insert(cookie("a.com", "both", "before")).unwrap();
    let mut run = CookieJar::new();
    run.insert(cookie("a.com", "both", "after")).unwrap();
    run.insert(cookie("b.com", "new", "2")).unwrap();
    kept.merge(&run);
    assert_eq!(contents(&kept), vec![
        ("a.com".to_string(), "old".to_string(), "1".to_string()),
        ("a.com".to_string(), "both".to_string(), "after".to_string()),
        ("b.com".to_string(), "new".to_string(), "2".to_string()),
    ]);
    assert_eq!(kept.pairs(), vec!["old=1", "both=after", "new=2"]);
    assert_eq!(contents(&kept.clone()), contents(&kept));
}

#[test]
fn jars_of_many_shapes_round_trip() {
    let pieces = ["", "a", "b c", "x=y", ";", "é", "\r", " "];
    let mut seed: u64 = 7;
    for _ in 0..300 {
        let mut jar = CookieJar::new();
        for _ in 0..5 {
            let mut pick = || {
                seed = seed.wrapping_mul(6364136223846793005).wrapping_add(1442695040888963407);
                pieces[((seed >> 33) % pieces.len() as u64) as usize]
            };
            let (domain, name, value) = (pick(), pick(), pick());
            jar.insert(cookie(domain, name, &format!("{}\t{}", value, name))).unwrap();
        }
        let back = CookieJar::parse(&jar.render()).ok().unwrap();
        assert_eq!(contents(&back), contents(&jar));
    }
}
