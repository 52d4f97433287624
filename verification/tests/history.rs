use quartz::endpoint::Endpoint;
use quartz::env::Env;
use quartz::error::QuartzError;
use quartz::headers::Headers;
use quartz::history::{RequestHistory, RequestHistoryEntry, Response};

fn entry(time: u64, url: &str) -> RequestHistoryEntry {
    let mut e = RequestHistoryEntry::new(time);
    let mut endpoint = Endpoint::new();
    endpoint.url = url.to_string();
    e.endpoint(&endpoint);
    e
}

fn full_entry() -> RequestHistoryEntry {
    let mut e = RequestHistoryEntry::new(1700000000123456);
    e.path(vec!["api".to_string(), "users".to_string()]);
    let mut endpoint = Endpoint::new();
    endpoint.url = "https://example.com/users".to_string();
    endpoint.method = "POST".to_string();
    endpoint.headers.insert("Accept", "json".to_string());
    endpoint.query.insert("page".to_string(), "2".to_string());
    endpoint.query.insert("size".to_string(), "5".to_string());
    endpoint.body = "request body".to_string();
    e.endpoint(&endpoint);
    e.context(&Env::new("staging"));
    let mut headers = Headers::new();
    headers.insert("Content-Type", "text/plain".to_string());
    e.response(Response { status: 201, headers, body: "response body".to_string(), size: 13 });
    e.duration(42);
    e.message("POST /users HTTP/1.1".to_string());
    e
}

#[test]
fn iterate_after_n_writes_is_strictly_descending() {
    let mut history = RequestHistory::new();
    let times = [30u64, 10, 50, 20, 40];
    for t in times {
        history.write(entry(t, &format!("https://x/{}", t)));
    }
    let listed: Vec<u64> = history.iterate().iter().map(|e| e.time).collect();
    assert_eq!(listed, vec![50, 40, 30, 20, 10]);
    assert_eq!(history.len(), 5);
    assert_eq!(history.last().ok().unwrap().time, history.iterate()[0].time);
    assert_eq!(history.last().ok().unwrap().endpoint.as_ref().unwrap().url, "https://x/50");
    let again: Vec<u64> = history.iterate().iter().map(|e| e.time).collect();
    assert_eq!(again, listed);
}

#[test]
fn empty_history_has_no_last_entry() {
    let history = RequestHistory::new();
    assert_eq!(history.last().err(), Some(QuartzError::NotFound));
    assert!(history.iterate().is_empty());
    assert_eq!(history.len(), 0);
}

#[test]
fn colliding_timestamps_keep_the_last_write() {
    let mut history = RequestHistory::new();
    history.write(entry(10, "https://first"));
    history.write(entry(20, "https://other"));
    history.write(entry(10, "https://second"));
    assert_eq!(history.len(), 2);
    let urls: Vec<String> = history.iterate().iter().map(|e| e.endpoint.as_ref().unwrap().url.clone()).collect();
    assert_eq!(urls, vec!["https://other", "https://second"]);
}

#[test]
fn next_hands_out_entries_newest_first() {
    let mut history = RequestHistory::new();
    assert!(history.next().is_none());
    history.write(entry(1, "a"));
    history.write(entry(3, "c"));
    history.write(entry(2, "b"));
    assert_eq!(history.next().map(|e| e.time), Some(3));
    assert_eq!(history.next().map(|e| e.time), Some(2));
    assert_eq!(history.next().map(|e| e.time), Some(1));
    assert!(history.next().is_none());
    assert!(history.next().is_none());
    history.write(entry(4, "d"));
    assert_eq!(history.next().map(|e| e.time), Some(4));
}

#[test]
fn timestamps_are_read_from_names_and_sorted() {
    let names: Vec<String> = ["30", "10", "20", "+5", "10"].iter().map(|s| s.to_string()).collect();
    assert_eq!(RequestHistory::timestamps(&names), Ok(vec![5, 10, 10, 20, 30]));
    assert_eq!(RequestHistory::timestamps(&Vec::new()), Ok(Vec::new()));
    let names: Vec<String> = ["30", "x10", "20"].iter().map(|s| s.to_string()).collect();
    assert_eq!(RequestHistory::timestamps(&names), Err(QuartzError::MalformedInput));
    let names: Vec<String> = ["30", ""].iter().map(|s| s.to_string()).collect();
    assert_eq!(RequestHistory::timestamps(&names), Err(QuartzError::MalformedInput));
    let names: Vec<String> = ["18446744073709551616"].iter().map(|s| s.to_string()).collect();
    assert_eq!(RequestHistory::timestamps(&names), Err(QuartzError::MalformedInput));
}

#[test]
fn fields_are_projected_to_text() {
    let e = full_entry();
    assert_eq!(e.field_as_string("handle"), Ok("api/users".to_string()));
    assert_eq!(e.field_as_string("time"), Ok("1700000000123456".to_string()));
    assert_eq!(e.field_as_string("duration"), Ok("42".to_string()));
    assert_eq!(e.field_as_string("request.url"), Ok("https://example.com/users".to_string()));
    assert_eq!(e.field_as_string("request.method"), Ok("POST".to_string()));
    assert_eq!(e.field_as_string("request.headers"), Ok("accept: json\n".to_string()));
    assert_eq!(e.field_as_string("request.query"), Ok("page=2&size=5".to_string()));
    assert_eq!(e.field_as_string("request.body"), Ok("request body".to_string()));
    assert_eq!(e.field_as_string("request.context"), Ok("staging".to_string()));
    assert_eq!(e.field_as_string("response.status"), Ok("201".to_string()));
    assert_eq!(e.field_as_string("response.headers"), Ok("content-type: text/plain\n".to_string()));
    assert_eq!(e.field_as_string("response.body"), Ok("response body".to_string()));
    assert_eq!(e.field_as_string("response.size"), Ok("13".to_string()));
    assert_eq!(e.field_as_string("date"), Ok("Tue Nov 14 22:13:20 2023".to_string()));
}

#[test]
fn unknown_field_is_not_found() {
    let e = full_entry();
    assert_eq!(e.field_as_string("response.nothing"), Err(QuartzError::NotFound));
    assert_eq!(e.field_as_string(""), Err(QuartzError::NotFound));
    assert_eq!(e.field_as_string("Handle"), Err(QuartzError::NotFound));
    let bare = RequestHistoryEntry::new(5);
    assert_eq!(bare.field_as_string("time"), Ok("5".to_string()));
    assert_eq!(bare.field_as_string("handle"), Ok("".to_string()));
    assert_eq!(bare.field_as_string("request.url"), Err(QuartzError::NotFound));
    assert_eq!(bare.field_as_string("request.context"), Err(QuartzError::NotFound));
    assert_eq!(bare.field_as_string("response.status"), Err(QuartzError::NotFound));
}

#[test]
fn format_time_writes_the_date() {
    let e = RequestHistoryEntry::new(1700000000123456);
    assert_eq!(e.format_time("%Y-%m-%d %H:%M:%S"), Some("2023-11-14 22:13:20".to_string()));
    assert_eq!(e.format_time("%s.%6f"), Some("1700000000.123456".to_string()));
    assert_eq!(e.format_time("plain"), Some("plain".to_string()));
    assert_eq!(RequestHistoryEntry::new(0).format_time("%Y"), Some("1970".to_string()));
    assert_eq!(e.format_time("%Q"), None);
    assert_eq!(RequestHistoryEntry::new(u64::MAX).format_time("%Y"), None);
    assert_eq!(e.file_name(), "1700000000123456");
}

#[test]
fn entries_are_cloned_whole() {
    let e = full_entry();
    let c = e.clone();
    for key in ["handle", "time", "duration", "request.url", "request.headers", "request.context", "response.status", "response.body"] {
        assert_eq!(c.field_as_string(key), e.field_as_string(key));
    }
    assert_eq!(c.messages, vec!["POST /users HTTP/1.1"]);
}

#[test]
fn history_agrees_with_an_ordered_map() {
    let mut history = RequestHistory::new();
    let mut model = std::collections::BTreeMap::new();
    let mut seed: u64 = 99;
    for step in 0..400u64 {
        seed = seed.wrapping_mul(6364136223846793005).wrapping_add(1442695040888963407);
        let time = (seed >> 33) % 50;
        let url = format!("https://x/{}", step);
        history.write(entry(time, &url));
        model.insert(time, url);
        assert_eq!(history.len(), model.len());
    }
    let listed: Vec<(u64, String)> = history.iterate().iter().map(|e| (e.time, e.endpoint.as_ref().unwrap().url.clone())).collect();
    let expected: Vec<(u64, String)> = model.into_iter().rev().collect();
    assert_eq!(listed, expected);
}
