use quartz::action::config::Next;
use quartz::action::env::{CpArgs, CreateArgs, RmArgs, SwitchArgs};
use quartz::action;
use quartz::cli::{
    ConfigCommands, ContextCommands, EndpointQueryCommands, EndpointShowCommands, EnvCmd,
    HeaderCmd, LastCommands, LastRequestCommands, LastResponseCommands, StatusCommands,
};
use quartz::ctx::{Ctx, QuartzExitCode};
use quartz::endpoint::{Color, Endpoint, EndpointPatch};
use quartz::error::QuartzError;
use quartz::handle::EndpointHandle;
use quartz::headers::Headers;
use quartz::history::{RequestHistoryEntry, Response};
use quartz::state::StateField;

fn strings(items: &[&str]) -> Vec<String> {
    items.iter().map(|s| s.to_string()).collect()
}

fn patch(url: Option<&str>, method: Option<&str>, query: &[&str], headers: &[&str]) -> EndpointPatch {
    EndpointPatch {
        url: url.map(|s| s.to_string()),
        method: method.map(|s| s.to_string()),
        query: strings(query),
        headers: strings(headers),
    }
}

fn project() -> Ctx {
    let mut ctx = Ctx::new();
    action::handle::create(&mut ctx, "api/users", &patch(Some("https://example.com/users"), Some("POST"), &["page=1"], &["Accept: json"]), true).unwrap();
    ctx
}

fn stored(ctx: &Ctx) -> Endpoint {
    ctx.require_endpoint().ok().unwrap().1
}

#[test]
fn new_project_has_default_scopes() {
    let ctx = Ctx::new();
    assert!(ctx.envs.contains("default"));
    assert!(ctx.contexts.contains("default"));
    assert_eq!(ctx.envs.len(), 1);
    assert_eq!(ctx.endpoints.len(), 0);
    assert_eq!(ctx.history.len(), 0);
    assert_eq!(ctx.require_handle().err(), Some(QuartzError::NotFound));
    assert_eq!(ctx.require_endpoint().err(), Some(QuartzError::NotFound));
    assert_eq!(ctx.require_env().ok().unwrap().name, "default");
    assert_eq!(ctx.require_context().ok().unwrap().name, "default");
    assert_eq!(Ctx::user_agent(), "quartz");
    assert_eq!(action::env::print(&ctx), "default");
}

#[test]
fn create_writes_an_endpoint_and_may_switch() {
    let mut ctx = Ctx::new();
    assert_eq!(action::handle::create(&mut ctx, "api/users", &patch(Some("https://x"), None, &["a=1"], &["H: v"]), false), Ok(()));
    assert_eq!(ctx.state.get(StateField::Endpoint), None);
    let e = ctx.endpoints.endpoint(&EndpointHandle::from_handle("api/users")).unwrap();
    assert_eq!(e.url, "https://x");
    assert_eq!(e.method, "");
    assert_eq!(e.query.get("a"), Some(&"1".to_string()));
    assert_eq!(e.headers.get("h"), Some(&"v".to_string()));
    assert_eq!(action::handle::create(&mut ctx, " api / other\n", &patch(None, None, &[], &[]), true), Ok(()));
    assert_eq!(ctx.state.get(StateField::Endpoint), Some(&"api/other".to_string()));
    assert_eq!(action::handle::status(&ctx, StatusCommands::Endpoint), "api/other");
}

#[test]
fn create_refuses_bad_handles_and_inputs() {
    let mut ctx = project();
    assert_eq!(action::handle::create(&mut ctx, "api/users", &patch(None, None, &[], &[]), false), Err(QuartzError::AlreadyExists));
    assert_eq!(action::handle::create(&mut ctx, "api", &patch(None, None, &[], &[]), false), Err(QuartzError::AlreadyExists));
    assert_eq!(action::handle::create(&mut ctx, "", &patch(None, None, &[], &[]), false), Err(QuartzError::MalformedInput));
    assert_eq!(action::handle::create(&mut ctx, " / ", &patch(None, None, &[], &[]), false), Err(QuartzError::MalformedInput));
    assert_eq!(action::handle::create(&mut ctx, "new", &patch(None, None, &["broken"], &[]), true), Err(QuartzError::MalformedInput));
    assert!(!ctx.endpoints.contains(&EndpointHandle::from_handle("new")));
    assert_eq!(ctx.state.get(StateField::Endpoint), Some(&"api/users".to_string()));
    assert_eq!(ctx.endpoints.len(), 2);
}

#[test]
fn switch_chooses_a_handle_and_patches_its_endpoint() {
    let mut ctx = project();
    action::handle::create(&mut ctx, "other", &patch(Some("https://o"), None, &[], &[]), false).unwrap();
    assert_eq!(action::handle::switch(&mut ctx, Some("other"), &patch(None, Some("PUT"), &[], &[])), Ok(()));
    assert_eq!(ctx.state.get(StateField::Endpoint), Some(&"other".to_string()));
    assert_eq!(stored(&ctx).method, "PUT");
    assert_eq!(stored(&ctx).url, "https://o");
    assert_eq!(action::handle::switch(&mut ctx, None, &patch(Some("https://changed"), None, &[], &[])), Ok(()));
    assert_eq!(stored(&ctx).url, "https://changed");
    assert_eq!(action::handle::switch(&mut ctx, Some("missing"), &patch(None, None, &[], &[])), Err(QuartzError::NotFound));
    assert_eq!(action::handle::switch(&mut ctx, Some("api"), &patch(None, None, &[], &[])), Err(QuartzError::NotFound));
    assert_eq!(action::handle::switch(&mut ctx, Some("api/users"), &patch(None, None, &[], &["broken"])), Err(QuartzError::MalformedInput));
    assert_eq!(ctx.state.get(StateField::Endpoint), Some(&"other".to_string()));
    let mut empty = Ctx::new();
    assert_eq!(action::handle::switch(&mut empty, None, &patch(None, None, &[], &[])), Err(QuartzError::NotFound));
}

#[test]
fn rm_removes_a_handle_with_its_subtree() {
    let mut ctx = project();
    action::handle::create(&mut ctx, "api/users/one", &patch(None, None, &[], &[]), false).unwrap();
    assert_eq!(action::handle::rm(&mut ctx, "api/users"), Ok(()));
    assert!(!ctx.endpoints.contains(&EndpointHandle::from_handle("api/users/one")));
    assert!(ctx.endpoints.contains(&EndpointHandle::from_handle("api")));
    assert_eq!(action::handle::rm(&mut ctx, "api/users"), Err(QuartzError::NotFound));
    assert_eq!(ctx.require_endpoint().err(), Some(QuartzError::NotFound));
}

#[test]
fn ls_lists_handles_with_what_to_show() {
    let mut ctx = project();
    action::handle::create(&mut ctx, "api/users/one", &patch(None, Some("DELETE"), &[], &[]), false).unwrap();
    action::handle::create(&mut ctx, "admin", &patch(None, None, &[], &[]), false).unwrap();
    let lines = action::handle::ls(&ctx, None);
    let told: Vec<(String, bool, Option<String>, Color, bool)> = lines.iter().map(|l| (l.handle.clone(), l.current, l.method.clone(), l.color, l.more)).collect();
    assert_eq!(told, vec![
        ("admin".to_string(), false, Some("".to_string()), Color::White, false),
        ("api".to_string(), false, None, Color::White, false),
        ("api/users".to_string(), true, Some("POST".to_string()), Color::Green, false),
        ("api/users/one".to_string(), false, Some("DELETE".to_string()), Color::Red, false),
    ]);
    let lines = action::handle::ls(&ctx, Some(0));
    let told: Vec<(String, bool)> = lines.iter().map(|l| (l.handle.clone(), l.more)).collect();
    assert_eq!(told, vec![("admin".to_string(), false), ("api".to_string(), true)]);
    assert!(action::handle::ls(&Ctx::new(), None).is_empty());
}

#[test]
fn show_prints_parts_of_the_endpoint() {
    let ctx = project();
    assert_eq!(action::handle::show(&ctx, EndpointShowCommands::Url), Ok("https://example.com/users".to_string()));
    assert_eq!(action::handle::show(&ctx, EndpointShowCommands::Method), Ok("POST".to_string()));
    assert_eq!(action::handle::show(&ctx, EndpointShowCommands::Headers { key: None }), Ok("accept: json\n".to_string()));
    assert_eq!(action::handle::show(&ctx, EndpointShowCommands::Headers { key: Some("ACCEPT".to_string()) }), Ok("json".to_string()));
    assert_eq!(action::handle::show(&ctx, EndpointShowCommands::Headers { key: Some("nope".to_string()) }), Err(QuartzError::NotFound));
    assert_eq!(action::handle::show(&ctx, EndpointShowCommands::Query { key: None }), Ok("page=1".to_string()));
    assert_eq!(action::handle::show(&ctx, EndpointShowCommands::Query { key: Some("page".to_string()) }), Ok("1".to_string()));
    assert_eq!(action::handle::show(&ctx, EndpointShowCommands::Query { key: Some("Page".to_string()) }), Err(QuartzError::NotFound));
    assert_eq!(action::handle::show(&ctx, EndpointShowCommands::Body), Ok("".to_string()));
    assert_eq!(action::handle::show(&Ctx::new(), EndpointShowCommands::Url), Err(QuartzError::NotFound));
}

#[test]
fn status_prints_what_is_in_use() {
    let mut ctx = Ctx::new();
    assert_eq!(action::handle::status(&ctx, StatusCommands::Endpoint), "");
    assert_eq!(action::handle::status(&ctx, StatusCommands::Context), "default");
    ctx.state.set(StateField::Context, "staging");
    assert_eq!(action::handle::status(&ctx, StatusCommands::Context), "staging");
    ctx.state.clear(StateField::Context);
    assert_eq!(action::handle::status(&ctx, StatusCommands::Context), "default");
}

#[test]
fn body_sets_and_prints_the_body() {
    let mut ctx = project();
    assert_eq!(action::handle::body(&mut ctx, None), Ok("".to_string()));
    assert_eq!(action::handle::body(&mut ctx, Some("{\"a\": 1}".to_string())), Ok("{\"a\": 1}".to_string()));
    assert_eq!(action::handle::body(&mut ctx, None), Ok("{\"a\": 1}".to_string()));
    assert_eq!(stored(&ctx).body, "{\"a\": 1}");
    assert_eq!(action::handle::body(&mut Ctx::new(), Some("x".to_string())), Err(QuartzError::NotFound));
}

#[test]
fn header_commands_work_on_the_endpoint_in_use() {
    let mut ctx = project();
    assert_eq!(action::header::set(&mut ctx, strings(&["X-One: 1", "Accept: xml"])), Ok(()));
    assert_eq!(action::header::get(&ctx, "x-one".to_string()), Ok("1".to_string()));
    assert_eq!(action::header::ls(&ctx), Ok("accept: xml\nx-one: 1\n".to_string()));
    assert_eq!(action::header::set(&mut ctx, strings(&["X-Two: 2", "broken"])), Err(QuartzError::MalformedInput));
    assert_eq!(action::header::get(&ctx, "x-two".to_string()), Err(QuartzError::NotFound));
    assert_eq!(action::header::rm(&mut ctx, strings(&["ACCEPT", "missing"])), Ok(()));
    assert_eq!(action::header::ls(&ctx), Ok("x-one: 1\n".to_string()));
    assert_eq!(action::header::cmd(&mut ctx, HeaderCmd::Put { header: strings(&["A: b"]) }), Ok("".to_string()));
    assert_eq!(action::header::cmd(&mut ctx, HeaderCmd::Get { key: "a".to_string() }), Ok("b".to_string()));
    assert_eq!(action::header::cmd(&mut ctx, HeaderCmd::Rm { key: strings(&["x-one"]) }), Ok("".to_string()));
    assert_eq!(action::header::cmd(&mut ctx, HeaderCmd::Ls), Ok("a: b\n".to_string()));
    assert_eq!(action::header::cmd(&mut ctx, HeaderCmd::Get { key: "x-one".to_string() }), Err(QuartzError::NotFound));
    let mut empty = Ctx::new();
    assert_eq!(action::header::set(&mut empty, strings(&["A: b"])), Err(QuartzError::NotFound));
    assert_eq!(action::header::rm(&mut empty, strings(&["a"])), Err(QuartzError::NotFound));
    assert_eq!(action::header::ls(&empty), Err(QuartzError::NotFound));
}

#[test]
fn query_commands_work_on_the_endpoint_in_use() {
    let mut ctx = project();
    assert_eq!(action::query::set(&mut ctx, strings(&["size=10", "page=2"])), Ok(()));
    assert_eq!(action::query::get(&ctx, "size".to_string()), Ok("10".to_string()));
    assert_eq!(action::query::get(&ctx, "none".to_string()), Err(QuartzError::NotFound));
    assert_eq!(action::query::ls(&ctx), Ok("page=2\nsize=10\n".to_string()));
    assert_eq!(action::query::print(&ctx), Ok("page=2&size=10".to_string()));
    assert_eq!(action::query::set(&mut ctx, strings(&["ok=1", "broken"])), Err(QuartzError::MalformedInput));
    assert_eq!(action::query::get(&ctx, "ok".to_string()), Err(QuartzError::NotFound));
    assert_eq!(action::query::set(&mut Ctx::new(), strings(&["a=1"])), Err(QuartzError::NotFound));
}

#[test]
fn query_rm_reports_each_key() {
    let mut ctx = project();
    action::query::set(&mut ctx, strings(&["size=10", "sort=asc"])).unwrap();
    let out = action::query::rm(&mut ctx, strings(&["size", "missing", "page", "size"])).ok().unwrap();
    assert_eq!(out.stdout, "Removed query param: size\nRemoved query param: page\n");
    assert_eq!(out.stderr, "missing: No such query param\nsize: No such query param\n");
    assert_eq!(out.code, QuartzExitCode::Error);
    assert_eq!(action::query::ls(&ctx), Ok("sort=asc\n".to_string()));
    let out = action::query::rm(&mut ctx, strings(&["sort"])).ok().unwrap();
    assert_eq!(out.stdout, "Removed query param: sort\n");
    assert_eq!(out.stderr, "");
    assert_eq!(out.code, QuartzExitCode::Success);
    assert_eq!(action::query::rm(&mut Ctx::new(), strings(&["a"])).err(), Some(QuartzError::NotFound));
}

#[test]
fn query_cmd_dispatches() {
    let mut ctx = project();
    let out = action::query::cmd(&mut ctx, EndpointQueryCommands::Put { query: strings(&["a=1"]) }).ok().unwrap();
    assert_eq!((out.stdout.as_str(), out.stderr.as_str(), out.code), ("", "", QuartzExitCode::Success));
    let out = action::query::cmd(&mut ctx, EndpointQueryCommands::Get { key: Some("a".to_string()) }).ok().unwrap();
    assert_eq!(out.stdout, "1");
    let out = action::query::cmd(&mut ctx, EndpointQueryCommands::Get { key: None }).ok().unwrap();
    assert_eq!(out.stdout, "page=1&a=1");
    let out = action::query::cmd(&mut ctx, EndpointQueryCommands::List).ok().unwrap();
    assert_eq!(out.stdout, "page=1\na=1\n");
    let out = action::query::cmd(&mut ctx, EndpointQueryCommands::Remove { key: "page".to_string() }).ok().unwrap();
    assert_eq!(out.stdout, "Removed query param: page\n");
    let out = action::query::cmd(&mut ctx, EndpointQueryCommands::Remove { key: "page".to_string() }).ok().unwrap();
    assert_eq!(out.code, QuartzExitCode::Error);
    assert_eq!(action::query::cmd(&mut ctx, EndpointQueryCommands::Get { key: Some("page".to_string()) }).err(), Some(QuartzError::NotFound));
    assert_eq!(action::query::cmd(&mut ctx, EndpointQueryCommands::Put { query: strings(&["x"]) }).err(), Some(QuartzError::MalformedInput));
}

#[test]
fn env_create_cp_rm() {
    let mut ctx = Ctx::new();
    assert_eq!(action::env::create(&mut ctx, CreateArgs { name: "staging\n".to_string() }), Ok(()));
    assert!(ctx.envs.contains("staging"));
    assert_eq!(action::env::create(&mut ctx, CreateArgs { name: "staging".to_string() }), Err(QuartzError::AlreadyExists));
    assert_eq!(action::env::create(&mut ctx, CreateArgs { name: "default".to_string() }), Err(QuartzError::AlreadyExists));

    let mut staging = ctx.envs.get("staging").unwrap().clone();
    staging.variables.insert("HOST".to_string(), "staging.example".to_string());
    staging.variables.insert("ONLY_SRC".to_string(), "s".to_string());
    ctx.envs.put(staging);
    let mut default = ctx.envs.get("default").unwrap().clone();
    default.variables.insert("HOST".to_string(), "example.com".to_string());
    default.variables.insert("ONLY_DEST".to_string(), "d".to_string());
    ctx.envs.put(default);

    assert_eq!(action::env::cp(&mut ctx, CpArgs { src: "staging".to_string(), dest: "default".to_string() }), Ok(()));
    let default = ctx.envs.get("default").unwrap();
    assert_eq!(default.variables.get("HOST"), Some(&"staging.example".to_string()));
    assert_eq!(default.variables.get("ONLY_DEST"), Some(&"d".to_string()));
    assert_eq!(default.variables.get("ONLY_SRC"), Some(&"s".to_string()));
    assert_eq!(action::env::cp(&mut ctx, CpArgs { src: "staging".to_string(), dest: "fresh".to_string() }), Ok(()));
    assert_eq!(ctx.envs.get("fresh").unwrap().variables.get("HOST"), Some(&"staging.example".to_string()));
    assert_eq!(action::env::cp(&mut ctx, CpArgs { src: "missing".to_string(), dest: "fresh".to_string() }), Err(QuartzError::NotFound));
    assert_eq!(ctx.envs.len(), 3);

    assert_eq!(action::env::rm(&mut ctx, RmArgs { env: "fresh".to_string() }), Ok(()));
    assert_eq!(action::env::rm(&mut ctx, RmArgs { env: "fresh".to_string() }), Err(QuartzError::NotFound));
    assert_eq!(ctx.envs.len(), 2);
}

#[test]
fn env_switch_and_ls() {
    let mut ctx = Ctx::new();
    action::env::create(&mut ctx, CreateArgs { name: "staging".to_string() }).unwrap();
    assert_eq!(action::env::ls(&ctx), "* default\n  staging\n");
    assert_eq!(action::env::switch(&mut ctx, SwitchArgs { env: "staging".to_string() }, false), Ok(()));
    assert_eq!(action::env::print(&ctx), "staging");
    assert_eq!(action::env::ls(&ctx), "  default\n* staging\n");
    assert_eq!(action::env::switch(&mut ctx, SwitchArgs { env: "new".to_string() }, false), Err(QuartzError::NotFound));
    assert_eq!(action::env::print(&ctx), "staging");
    assert!(!ctx.envs.contains("new"));
    assert_eq!(action::env::switch(&mut ctx, SwitchArgs { env: "new".to_string() }, true), Ok(()));
    assert_eq!(action::env::print(&ctx), "new");
    assert_eq!(action::env::ls(&ctx), "  default\n  staging\n* new\n");
}

#[test]
fn env_header_commands() {
    let mut ctx = Ctx::new();
    assert_eq!(action::env::header_set(&mut ctx, strings(&["Authorization: token", "X-A: 1"])), Ok(()));
    assert_eq!(action::env::header_get(&ctx, "authorization".to_string()), Ok("token".to_string()));
    assert_eq!(action::env::header_ls(&ctx), Ok("authorization: token\nx-a: 1\n".to_string()));
    assert_eq!(action::env::header_set(&mut ctx, strings(&["X-B: 2", "broken"])), Err(QuartzError::MalformedInput));
    assert_eq!(action::env::header_get(&ctx, "x-b".to_string()), Err(QuartzError::NotFound));
    assert_eq!(action::env::header_rm(&mut ctx, strings(&["X-A", "nope"])), Ok(()));
    assert_eq!(action::env::header_ls(&ctx), Ok("authorization: token\n".to_string()));
    ctx.state.set(StateField::Env, "gone");
    assert_eq!(action::env::header_set(&mut ctx, strings(&["A: b"])), Err(QuartzError::NotFound));
    assert_eq!(action::env::header_rm(&mut ctx, strings(&["a"])), Err(QuartzError::NotFound));
    assert_eq!(action::env::header_ls(&ctx), Err(QuartzError::NotFound));
    assert_eq!(action::env::header_get(&ctx, "a".to_string()), Err(QuartzError::NotFound));
}

#[test]
fn env_cmd_dispatches() {
    let mut ctx = Ctx::new();
    assert_eq!(action::env::cmd(&mut ctx, EnvCmd::Create(CreateArgs { name: "a".to_string() }), false), Ok("".to_string()));
    assert_eq!(action::env::cmd(&mut ctx, EnvCmd::Create(CreateArgs { name: "a".to_string() }), false), Err(QuartzError::AlreadyExists));
    assert_eq!(action::env::cmd(&mut ctx, EnvCmd::Cp(CpArgs { src: "a".to_string(), dest: "b".to_string() }), false), Ok("".to_string()));
    assert_eq!(action::env::cmd(&mut ctx, EnvCmd::Use(SwitchArgs { env: "b".to_string() }), false), Ok("".to_string()));
    assert_eq!(action::env::cmd(&mut ctx, EnvCmd::Use(SwitchArgs { env: "c".to_string() }), false), Err(QuartzError::NotFound));
    assert_eq!(action::env::cmd(&mut ctx, EnvCmd::Ls, false), Ok("  default\n  a\n* b\n".to_string()));
    assert_eq!(action::env::cmd(&mut ctx, EnvCmd::Rm(RmArgs { env: "a".to_string() }), false), Ok("".to_string()));
    assert_eq!(action::env::cmd(&mut ctx, EnvCmd::Header { command: HeaderCmd::Put { header: strings(&["A: 1"]) } }, false), Ok("".to_string()));
    assert_eq!(action::env::cmd(&mut ctx, EnvCmd::Header { command: HeaderCmd::Get { key: "A".to_string() } }, false), Ok("1".to_string()));
    assert_eq!(action::env::cmd(&mut ctx, EnvCmd::Header { command: HeaderCmd::Ls }, false), Ok("a: 1\n".to_string()));
    assert_eq!(action::env::cmd(&mut ctx, EnvCmd::Header { command: HeaderCmd::Rm { key: strings(&["a"]) } }, false), Ok("".to_string()));
    assert_eq!(action::env::cmd(&mut ctx, EnvCmd::Header { command: HeaderCmd::Ls }, false), Ok("".to_string()));
}

#[test]
fn context_commands() {
    let mut ctx = Ctx::new();
    assert_eq!(action::env::context(&mut ctx, ContextCommands::Create { name: "dev".to_string() }), Ok("".to_string()));
    assert_eq!(action::env::context(&mut ctx, ContextCommands::Create { name: "dev".to_string() }), Err(QuartzError::AlreadyExists));
    assert_eq!(action::env::context(&mut ctx, ContextCommands::List), Ok("* default\n  dev\n".to_string()));
    assert_eq!(action::env::context(&mut ctx, ContextCommands::Use { context: "dev".to_string() }), Ok("".to_string()));
    assert_eq!(action::env::context(&mut ctx, ContextCommands::Use { context: "nope".to_string() }), Err(QuartzError::NotFound));
    assert_eq!(action::env::context(&mut ctx, ContextCommands::List), Ok("  default\n* dev\n".to_string()));
    action::var::set(&mut ctx, &strings(&["A=1"])).unwrap();
    assert_eq!(action::env::context(&mut ctx, ContextCommands::Copy { src: "dev".to_string(), dest: "copy".to_string() }), Ok("".to_string()));
    assert_eq!(ctx.contexts.get("copy").unwrap().variables.get("A"), Some(&"1".to_string()));
    assert_eq!(action::env::context(&mut ctx, ContextCommands::Copy { src: "nope".to_string(), dest: "copy".to_string() }), Err(QuartzError::NotFound));
    assert_eq!(action::env::context(&mut ctx, ContextCommands::Remove { context: "copy".to_string() }), Ok("".to_string()));
    assert_eq!(action::env::context(&mut ctx, ContextCommands::Remove { context: "copy".to_string() }), Err(QuartzError::NotFound));
    assert_eq!(ctx.envs.len(), 1);
}

#[test]
fn variable_commands() {
    let mut ctx = Ctx::new();
    assert_eq!(action::var::set(&mut ctx, &strings(&["HOST=example.com", "T='a b'"])), Ok(()));
    assert_eq!(action::var::get(&ctx, "HOST"), Ok("example.com".to_string()));
    assert_eq!(action::var::get(&ctx, "host"), Err(QuartzError::NotFound));
    assert_eq!(action::var::ls(&ctx), Ok("HOST=example.com\nT=a b\n".to_string()));
    assert_eq!(action::var::set(&mut ctx, &strings(&["OK=1", "broken"])), Err(QuartzError::MalformedInput));
    assert_eq!(action::var::get(&ctx, "OK"), Err(QuartzError::NotFound));
    assert_eq!(action::var::rm(&mut ctx, "T"), Ok(()));
    assert_eq!(action::var::rm(&mut ctx, "T"), Err(QuartzError::NotFound));
    assert_eq!(action::var::ls(&ctx), Ok("HOST=example.com\n".to_string()));
    ctx.state.set(StateField::Context, "gone");
    assert_eq!(action::var::set(&mut ctx, &strings(&["A=1"])), Err(QuartzError::NotFound));
    assert_eq!(action::var::get(&ctx, "HOST"), Err(QuartzError::NotFound));
    assert_eq!(action::var::rm(&mut ctx, "HOST"), Err(QuartzError::NotFound));
    assert_eq!(action::var::ls(&ctx), Err(QuartzError::NotFound));
}

fn said(r: Result<Next, QuartzError>) -> Result<String, QuartzError> {
    match r {
        Ok(Next::Say(s)) => Ok(s),
        Ok(Next::Edit) => Ok("<edit>".to_string()),
        Ok(Next::List) => Ok("<list>".to_string()),
        Err(e) => Err(e),
    }
}

#[test]
fn config_commands() {
    let mut ctx = Ctx::new();
    assert_eq!(said(action::config::cmd(&mut ctx, ConfigCommands::Get { key: "preferences.editor".to_string() })), Ok("vim".to_string()));
    assert_eq!(said(action::config::cmd(&mut ctx, ConfigCommands::Get { key: "ui.colors".to_string() })), Ok("true".to_string()));
    assert_eq!(said(action::config::cmd(&mut ctx, ConfigCommands::Get { key: "ui".to_string() })), Err(QuartzError::MalformedInput));
    assert_eq!(said(action::config::cmd(&mut ctx, ConfigCommands::Put { key: "preferences.editor".to_string(), value: "nano".to_string() })), Ok("".to_string()));
    assert_eq!(said(action::config::cmd(&mut ctx, ConfigCommands::Put { key: "ui.colors".to_string(), value: "no".to_string() })), Ok("".to_string()));
    assert_eq!(ctx.config.get("preferences.editor"), Ok("nano".to_string()));
    assert_eq!(ctx.config.get("ui.colors"), Ok("false".to_string()));
    assert_eq!(ctx.config.set("ui.colors", "true"), Ok(()));
    assert!(ctx.config.ui.colors);
    assert_eq!(said(action::config::cmd(&mut ctx, ConfigCommands::Put { key: "other".to_string(), value: "x".to_string() })), Err(QuartzError::MalformedInput));
    assert_eq!(said(action::config::cmd(&mut ctx, ConfigCommands::Edit)), Ok("<edit>".to_string()));
    assert_eq!(said(action::config::cmd(&mut ctx, ConfigCommands::List)), Ok("<list>".to_string()));
}

fn recorded(ctx: &mut Ctx, time: u64, url: &str, status: u16) {
    let mut e = RequestHistoryEntry::new(time);
    e.path(strings(&["api", "users"]));
    let mut endpoint = Endpoint::new();
    endpoint.url = url.to_string();
    e.endpoint(&endpoint);
    e.response(Response { status, headers: Headers::new(), body: "b".to_string(), size: 1 });
    ctx.history.write(e);
}

#[test]
fn last_prints_fields_of_the_newest_entry() {
    let mut ctx = Ctx::new();
    assert_eq!(action::history::last(&ctx, LastCommands::Handle), Err(QuartzError::NotFound));
    recorded(&mut ctx, 1000000, "https://old", 500);
    recorded(&mut ctx, 86400000000, "https://new", 200);
    assert_eq!(action::history::last(&ctx, LastCommands::Handle), Ok("api/users".to_string()));
    assert_eq!(action::history::last(&ctx, LastCommands::Date), Ok("Fri Jan 02 00:00:00 1970".to_string()));
    assert_eq!(action::history::last(&ctx, LastCommands::Request { command: LastRequestCommands::Url }), Ok("https://new".to_string()));
    assert_eq!(action::history::last(&ctx, LastCommands::Request { command: LastRequestCommands::Method }), Ok("GET".to_string()));
    assert_eq!(action::history::last(&ctx, LastCommands::Request { command: LastRequestCommands::Query }), Ok("".to_string()));
    assert_eq!(action::history::last(&ctx, LastCommands::Request { command: LastRequestCommands::Headers }), Ok("".to_string()));
    assert_eq!(action::history::last(&ctx, LastCommands::Request { command: LastRequestCommands::Body }), Ok("".to_string()));
    assert_eq!(action::history::last(&ctx, LastCommands::Request { command: LastRequestCommands::Context }), Err(QuartzError::NotFound));
    assert_eq!(action::history::last(&ctx, LastCommands::Response { command: LastResponseCommands::Status }), Ok("200".to_string()));
    assert_eq!(action::history::last(&ctx, LastCommands::Response { command: LastResponseCommands::Headers }), Ok("".to_string()));
    assert_eq!(action::history::last(&ctx, LastCommands::Response { command: LastResponseCommands::Body }), Ok("b".to_string()));
    assert_eq!(action::history::last(&ctx, LastCommands::Response { command: LastResponseCommands::Size }), Ok("1".to_string()));
    assert_eq!(action::history::field_key(&LastCommands::Request { command: LastRequestCommands::Context }), "request.context");
}

#[test]
fn history_lists_fields_newest_first() {
    let mut ctx = Ctx::new();
    recorded(&mut ctx, 1, "https://one", 201);
    recorded(&mut ctx, 3, "https://three", 203);
    recorded(&mut ctx, 2, "https://two", 202);
    let keys = strings(&["request.url", "bogus", "response.status"]);
    let all = action::history::history(&ctx, None, &keys);
    assert_eq!(all, vec![
        vec![Ok("https://three".to_string()), Err(QuartzError::NotFound), Ok("203".to_string())],
        vec![Ok("https://two".to_string()), Err(QuartzError::NotFound), Ok("202".to_string())],
        vec![Ok("https://one".to_string()), Err(QuartzError::NotFound), Ok("201".to_string())],
    ]);
    assert_eq!(action::history::history(&ctx, Some(2), &keys).len(), 2);
    assert_eq!(action::history::history(&ctx, Some(2), &keys)[1][0], Ok("https://two".to_string()));
    assert_eq!(action::history::history(&ctx, Some(0), &keys).len(), 0);
    assert_eq!(action::history::history(&ctx, Some(9), &keys).len(), 3);
    assert_eq!(action::history::history(&ctx, None, &Vec::new()), vec![Vec::new(), Vec::new(), Vec::new()]);
    let entry = ctx.history.last().ok().unwrap();
    assert_eq!(action::history::project(entry, &keys), vec![Ok("https://three".to_string()), Err(QuartzError::NotFound), Ok("203".to_string())]);
}
