use quartz::action::send::{
    choose_target, complete, cookie_header, expand_cookies, names_file, prepare, redirect_target,
    Action, Answer, Args, Event, Exchange, Phase, MAX_REDIRECTS,
};
use quartz::cookie::{Cookie, CookieJar};
use quartz::ctx::Ctx;
use quartz::endpoint::{Endpoint, EndpointPatch};
use quartz::error::QuartzError;
use quartz::handle::EndpointHandle;
use quartz::headers::Headers;
use quartz::history::Response;
use quartz::state::StateField;
use quartz::wire::UriParts;

fn no_patch() -> EndpointPatch {
    EndpointPatch { url: None, method: None, query: Vec::new(), headers: Vec::new() }
}

fn args() -> Args {
    Args { variables: Vec::new(), patch: no_patch(), no_follow: false, cookies: Vec::new(), cookie_jar: None }
}

fn exchange(url: &str) -> Exchange {
    let mut endpoint = Endpoint::new();
    endpoint.url = url.to_string();
    Exchange {
        phase: Phase::Prepared,
        endpoint,
        env_headers: Headers::new(),
        jar: CookieJar::new(),
        follow: true,
        hops: 0,
        max_hops: MAX_REDIRECTS,
    }
}

fn answered(status: u16, location: Option<&str>, set_cookie: Option<&str>) -> Event {
    Event::Answered(Answer {
        status,
        location: location.map(|s| s.to_string()),
        set_cookie: set_cookie.map(|s| s.to_string()),
    })
}

fn sent_url(action: &Action) -> String {
    match action {
        Action::Send(q) => q.url.clone(),
        _ => panic!("no request to send"),
    }
}

fn project() -> Ctx {
    let mut ctx = Ctx::new();
    let mut users = Endpoint::blank();
    users.url = "https://{{HOST}}/users".to_string();
    ctx.endpoints.write(&EndpointHandle::from_handle("api/users"), users).unwrap();
    ctx.state.set(StateField::Endpoint, "api/users");
    ctx
}

#[test]
fn relative_location_reuses_scheme_and_authority() {
    assert_eq!(redirect_target("https://host/prev", "/next"), Some("https://host/next".to_string()));
    assert_eq!(redirect_target("http://host:8080/a/b?x=1", "/c?y=2"), Some("http://host:8080/c?y=2".to_string()));
    assert_eq!(redirect_target("https://user@host/prev", "/"), Some("https://user@host/".to_string()));
}

#[test]
fn absolute_location_is_used_directly() {
    assert_eq!(redirect_target("https://host/prev", "https://other.example/path?q=1"), Some("https://other.example/path?q=1".to_string()));
    assert_eq!(redirect_target("not a url", "http://other/"), Some("http://other/".to_string()));
}

#[test]
fn malformed_location_is_not_followed() {
    assert_eq!(redirect_target("https://host/prev", "next"), None);
    assert_eq!(redirect_target("https://host/prev", ""), None);
    assert_eq!(redirect_target("https://host/prev", "ht tp://x"), None);
    assert_eq!(redirect_target("https://host/prev", "/with space"), None);
    assert_eq!(redirect_target("/only/a/path", "/next"), None);
    assert_eq!(redirect_target("", "/next"), None);
}

#[test]
fn choose_target_decides_on_given_parts() {
    let parts = |scheme: Option<&str>, authority: Option<&str>| UriParts {
        scheme: scheme.map(|s| s.to_string()),
        authority: authority.map(|s| s.to_string()),
        host: authority.map(|s| s.to_string()),
        path_and_query: Some("/".to_string()),
    };
    assert_eq!(choose_target("/next", Some("https://host/next".to_string()), None), Some("https://host/next".to_string()));
    assert_eq!(choose_target("/next", None, Some(parts(Some("https"), Some("h")))), None);
    assert_eq!(choose_target("https://o/x", Some("ignored".to_string()), Some(parts(Some("https"), Some("o")))), Some("https://o/x".to_string()));
    assert_eq!(choose_target("o", None, Some(parts(None, Some("o")))), None);
    assert_eq!(choose_target("x", None, Some(parts(Some("https"), None))), None);
    assert_eq!(choose_target("x", Some("https://host/x".to_string()), None), None);
    assert_eq!(choose_target("", Some("https://host/".to_string()), None), None);
}

#[test]
fn launch_sends_the_request_with_environment_headers_filled_in() {
    let mut x = exchange("https://host/prev");
    x.endpoint.headers.insert("Accept", "mine".to_string());
    x.env_headers.insert("accept", "theirs".to_string());
    x.env_headers.insert("Authorization", "token".to_string());
    match x.launch() {
        Action::Send(q) => {
            assert_eq!(q.url, "https://host/prev");
            assert_eq!(q.method, "GET");
            assert_eq!(q.headers.get("accept"), Some(&"mine".to_string()));
            assert_eq!(q.headers.get("authorization"), Some(&"token".to_string()));
        },
        _ => panic!("expected a request"),
    }
    assert_eq!(x.phase, Phase::Sent);
    assert_eq!(x.endpoint.headers.len(), 1);
    assert!(matches!(x.launch(), Action::Ignore));
}

#[test]
fn launch_fails_on_a_malformed_request() {
    let mut x = exchange("https://ho st/");
    assert!(matches!(x.launch(), Action::Abort(QuartzError::MalformedInput)));
    assert_eq!(x.phase, Phase::Failed);
    let mut x = exchange("https://host/");
    x.env_headers.insert("bad name", "v".to_string());
    assert!(matches!(x.launch(), Action::Abort(QuartzError::MalformedInput)));
    let mut x = exchange("https://host/");
    x.env_headers.insert("x-v", "line\nbreak".to_string());
    assert!(matches!(x.launch(), Action::Abort(QuartzError::MalformedInput)));
    assert!(matches!(x.step(answered(200, None, None)), Action::Ignore));
    assert_eq!(x.phase, Phase::Failed);
}

#[test]
fn an_answer_that_does_not_redirect_completes() {
    let mut x = exchange("https://host/prev");
    x.launch();
    assert!(matches!(x.step(answered(404, Some("/next"), None)), Action::Finish));
    assert_eq!(x.phase, Phase::Completed);
    assert_eq!(x.hops, 0);
    assert!(matches!(x.step(answered(200, None, None)), Action::Ignore));
    assert!(matches!(x.launch(), Action::Ignore));
}

#[test]
fn a_redirect_is_followed_to_the_rebuilt_url() {
    let mut x = exchange("https://host/prev");
    x.launch();
    let action = x.step(answered(302, Some("/next"), None));
    assert_eq!(sent_url(&action), "https://host/next");
    assert_eq!(x.phase, Phase::Sent);
    assert_eq!(x.hops, 1);
    assert_eq!(x.endpoint.url, "https://host/next");
    let action = x.step(answered(301, Some("https://other/final"), None));
    assert_eq!(sent_url(&action), "https://other/final");
    assert_eq!(x.hops, 2);
    assert!(matches!(x.step(answered(200, None, None)), Action::Finish));
    assert_eq!(x.phase, Phase::Completed);
}

#[test]
fn the_redirection_class_is_300_to_399() {
    for (status, redirects) in [(299u16, false), (300, true), (304, true), (399, true), (400, false), (200, false)] {
        let mut x = exchange("https://host/prev");
        x.launch();
        let action = x.step(answered(status, Some("/next"), None));
        assert_eq!(matches!(action, Action::Send(_)), redirects, "{}", status);
    }
}

#[test]
fn no_follow_stops_at_the_first_answer() {
    let mut x = exchange("https://host/prev");
    x.follow = false;
    x.launch();
    assert!(matches!(x.step(answered(302, Some("/next"), None)), Action::Finish));
    assert_eq!(x.phase, Phase::Completed);
    assert_eq!(x.endpoint.url, "https://host/prev");
}

#[test]
fn a_redirect_without_usable_location_completes() {
    let mut x = exchange("https://host/prev");
    x.launch();
    assert!(matches!(x.step(answered(302, None, None)), Action::Finish));
    let mut x = exchange("https://host/prev");
    x.launch();
    assert!(matches!(x.step(answered(302, Some("not a url"), None)), Action::Finish));
    assert_eq!(x.phase, Phase::Completed);
    assert_eq!(x.hops, 0);
}

#[test]
fn too_many_redirects_fail() {
    let mut x = exchange("https://host/0");
    x.launch();
    for hop in 1..=MAX_REDIRECTS {
        let action = x.step(answered(302, Some(&format!("/{}", hop)), None));
        assert_eq!(sent_url(&action), format!("https://host/{}", hop));
    }
    assert_eq!(x.hops, MAX_REDIRECTS);
    assert!(matches!(x.step(answered(302, Some("/again"), None)), Action::Abort(QuartzError::TooManyRedirects)));
    assert_eq!(x.phase, Phase::Failed);
    assert_eq!(MAX_REDIRECTS, 10);
}

#[test]
fn a_broken_transport_fails() {
    let mut x = exchange("https://host/prev");
    x.launch();
    assert!(matches!(x.step(Event::Broken), Action::Abort(QuartzError::TransportFailure)));
    assert_eq!(x.phase, Phase::Failed);
    let mut x = exchange("https://host/prev");
    assert!(matches!(x.step(Event::Broken), Action::Ignore));
    assert_eq!(x.phase, Phase::Prepared);
}

#[test]
fn each_hop_collects_its_cookie_for_its_host() {
    let mut x = exchange("https://first.example:8443/login");
    x.endpoint.query.insert("next".to_string(), "home".to_string());
    x.launch();
    let action = x.step(answered(302, Some("https://second.example/home"), Some("session=one; Path=/")));
    assert_eq!(sent_url(&action), "https://second.example/home?next=home");
    assert_eq!(x.jar.get("first.example", "session"), Some(&"one".to_string()));
    x.step(answered(200, None, Some("session=two")));
    assert_eq!(x.jar.get("second.example", "session"), Some(&"two".to_string()));
    assert_eq!(x.jar.get("first.example", "session"), Some(&"one".to_string()));
    assert_eq!(x.jar.len(), 2);
    let mut x = exchange("https://host/");
    x.launch();
    x.step(answered(200, None, Some("no cookie here")));
    assert_eq!(x.jar.len(), 0);
}

#[test]
fn cookie_arguments_are_data_or_files() {
    assert!(!names_file("a=b"));
    assert!(names_file("cookies.txt"));
    assert_eq!(expand_cookies("a=b", None), Ok(vec!["a=b".to_string()]));
    assert_eq!(expand_cookies("a=b", Some("ignored")), Ok(vec!["a=b".to_string()]));
    assert_eq!(expand_cookies("jar.txt", Some("h\tk\tv\nh\tl\tw\n")), Ok(vec!["k=v".to_string(), "l=w".to_string()]));
    assert_eq!(expand_cookies("jar.txt", Some("")), Ok(Vec::new()));
    assert_eq!(expand_cookies("jar.txt", None), Err(QuartzError::MalformedInput));
    assert_eq!(expand_cookies("jar.txt", Some("garbage")), Err(QuartzError::MalformedInput));
}

#[test]
fn cookie_header_joins_jar_and_extras() {
    let mut jar = CookieJar::new();
    jar.insert(Cookie { domain: "h".to_string(), name: "a".to_string(), value: "1".to_string() }).unwrap();
    jar.insert(Cookie { domain: "h".to_string(), name: "b".to_string(), value: "2".to_string() }).unwrap();
    assert_eq!(cookie_header(&jar, &vec!["c=3".to_string()]), "a=1; b=2; c=3");
    assert_eq!(cookie_header(&jar, &Vec::new()), "a=1; b=2");
    assert_eq!(cookie_header(&CookieJar::new(), &vec!["c=3".to_string(), "d=4".to_string()]), "c=3; d=4");
    assert_eq!(cookie_header(&CookieJar::new(), &Vec::new()), "");
}

#[test]
fn end_to_end_resolve_and_substitute() {
    let mut ctx = project();
    quartz::action::var::set(&mut ctx, &vec!["HOST=example.com".to_string()]).unwrap();
    let x = prepare(&ctx, &args(), &Vec::new()).ok().unwrap();
    assert_eq!(x.endpoint.url, "https://example.com/users");
    assert_eq!(x.phase, Phase::Prepared);

    quartz::action::env::context(&mut ctx, quartz::cli::ContextCommands::Create { name: "bare".to_string() }).unwrap();
    quartz::action::env::context(&mut ctx, quartz::cli::ContextCommands::Use { context: "bare".to_string() }).unwrap();
    let x = prepare(&ctx, &args(), &Vec::new()).ok().unwrap();
    assert_eq!(x.endpoint.url, "https://{{HOST}}/users");
}

#[test]
fn prepare_builds_the_exchange() {
    let mut ctx = project();
    let mut env = ctx.require_env().ok().unwrap();
    env.variables.insert("HOST".to_string(), "env.example".to_string());
    env.variables.insert("TOKEN".to_string(), "t0".to_string());
    env.headers.insert("Authorization", "Bearer {{TOKEN}}".to_string());
    env.cookies.insert(Cookie { domain: "env.example".to_string(), name: "sid".to_string(), value: "1".to_string() }).unwrap();
    ctx.envs.put(env);
    let mut a = args();
    a.variables = vec!["TOKEN=t1".to_string()];
    a.patch.method = Some("POST".to_string());
    a.patch.headers = vec!["X-Token: {{TOKEN}}".to_string()];
    a.no_follow = true;
    let x = prepare(&ctx, &a, &vec!["extra=2".to_string()]).ok().unwrap();
    assert_eq!(x.endpoint.url, "https://env.example/users");
    assert_eq!(x.endpoint.method, "POST");
    assert_eq!(x.endpoint.headers.get("x-token"), Some(&"t1".to_string()));
    assert_eq!(x.endpoint.headers.get("user-agent"), Some(&"quartz".to_string()));
    assert_eq!(x.endpoint.headers.get("cookie"), Some(&"sid=1; extra=2".to_string()));
    assert_eq!(x.env_headers.get("authorization"), Some(&"Bearer {{TOKEN}}".to_string()));
    assert!(!x.follow);
    assert_eq!(x.hops, 0);
    assert_eq!(x.max_hops, MAX_REDIRECTS);
    assert_eq!(x.jar.len(), 1);
    assert_eq!(ctx.require_env().ok().unwrap().variables.get("TOKEN"), Some(&"t0".to_string()));
}

#[test]
fn context_variables_win_over_environment_variables() {
    let mut ctx = project();
    let mut env = ctx.require_env().ok().unwrap();
    env.variables.insert("HOST".to_string(), "from-env".to_string());
    ctx.envs.put(env);
    let x = prepare(&ctx, &args(), &Vec::new()).ok().unwrap();
    assert_eq!(x.endpoint.url, "https://from-env/users");
    quartz::action::var::set(&mut ctx, &vec!["HOST=from-context".to_string()]).unwrap();
    let x = prepare(&ctx, &args(), &Vec::new()).ok().unwrap();
    assert_eq!(x.endpoint.url, "https://from-context/users");
}

#[test]
fn prepare_fails_without_handle_or_on_malformed_input() {
    let mut ctx = Ctx::new();
    assert_eq!(prepare(&ctx, &args(), &Vec::new()).err(), Some(QuartzError::NotFound));
    ctx.state.set(StateField::Endpoint, "missing");
    assert_eq!(prepare(&ctx, &args(), &Vec::new()).err(), Some(QuartzError::NotFound));
    let mut ctx = project();
    let mut a = args();
    a.variables = vec!["broken".to_string()];
    assert_eq!(prepare(&ctx, &a, &Vec::new()).err(), Some(QuartzError::MalformedInput));
    let mut a = args();
    a.patch.query = vec!["broken".to_string()];
    assert_eq!(prepare(&ctx, &a, &Vec::new()).err(), Some(QuartzError::MalformedInput));
    ctx.state.set(StateField::Env, "gone");
    assert_eq!(prepare(&ctx, &args(), &Vec::new()).err(), Some(QuartzError::NotFound));
}

#[test]
fn complete_records_the_exchange() {
    let mut ctx = project();
    let mut x = prepare(&ctx, &args(), &Vec::new()).ok().unwrap();
    x.endpoint.url = "https://example.com/users".to_string();
    x.launch();
    x.step(answered(200, None, Some("sid=9")));
    let response = Response { status: 200, headers: Headers::new(), body: "ok".to_string(), size: 2 };
    let file = complete(&mut ctx, x, response, vec!["GET /users HTTP/1.1".to_string(), "HTTP/1.1 200 OK".to_string()], 1700000000000000, 12, None).ok().unwrap();
    assert_eq!(file.path, None);
    assert_eq!(file.text, "example.com\tsid\t9\n");
    let last = ctx.history.last().ok().unwrap();
    assert_eq!(last.field_as_string("handle"), Ok("api/users".to_string()));
    assert_eq!(last.field_as_string("request.url"), Ok("https://example.com/users".to_string()));
    assert_eq!(last.field_as_string("request.context"), Ok("default".to_string()));
    assert_eq!(last.field_as_string("response.status"), Ok("200".to_string()));
    assert_eq!(last.field_as_string("duration"), Ok("12".to_string()));
    assert_eq!(last.field_as_string("time"), Ok("1700000000000000".to_string()));
    assert_eq!(last.messages, vec!["GET /users HTTP/1.1", "HTTP/1.1 200 OK"]);
    assert_eq!(ctx.require_env().ok().unwrap().cookies.get("example.com", "sid"), Some(&"9".to_string()));
}

#[test]
fn complete_hands_cookies_to_a_named_file() {
    let mut ctx = project();
    let mut x = prepare(&ctx, &args(), &Vec::new()).ok().unwrap();
    x.endpoint.url = "https://example.com/users".to_string();
    x.launch();
    x.step(answered(200, None, Some("sid=9")));
    let response = Response { status: 200, headers: Headers::new(), body: "".to_string(), size: 0 };
    let file = complete(&mut ctx, x, response, Vec::new(), 5, 1, Some("out.jar".to_string())).ok().unwrap();
    assert_eq!(file.path, Some("out.jar".to_string()));
    assert_eq!(file.text, "example.com\tsid\t9\n");
    assert_eq!(ctx.require_env().ok().unwrap().cookies.len(), 0);
    assert_eq!(ctx.history.len(), 1);
}

#[test]
fn complete_refuses_an_exchange_that_is_not_completed() {
    let mut ctx = project();
    let x = prepare(&ctx, &args(), &Vec::new()).ok().unwrap();
    let response = Response { status: 200, headers: Headers::new(), body: "".to_string(), size: 0 };
    assert_eq!(complete(&mut ctx, x, response, Vec::new(), 5, 1, None).err(), Some(QuartzError::MalformedInput));
    assert_eq!(ctx.history.len(), 0);
    let mut x = exchange("https://host/");
    x.launch();
    x.step(Event::Broken);
    let response = Response { status: 0, headers: Headers::new(), body: "".to_string(), size: 0 };
    assert_eq!(complete(&mut ctx, x, response, Vec::new(), 5, 1, None).err(), Some(QuartzError::MalformedInput));
    assert_eq!(ctx.history.len(), 0);
}
