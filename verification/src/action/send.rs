//! Sending a request: what is sent, what is done with each answer, and
//! what is kept when the exchange is over.
//!
//! An exchange goes through these phases: it is prepared; the request is
//! sent; an answer that redirects, where redirects are followed, leads to
//! another request being sent; any other answer completes the exchange. An
//! error at any point makes it fail. The functions here decide; carrying
//! the request to the server is left to the caller, who hands each answer
//! back.

use vstd::prelude::*;
use crate::cookie::{cookie_pair, is_clean, pair_text, put_cookie, CookieJar, CookieView, Cookies};
use crate::ctx::{context_in_use, env_in_use, handle_in_use, Ctx, CtxView};
use crate::endpoint::{
    all_headers,
    all_pairs,
    applied,
    full_url,
    patched,
    sendable,
    set_pairs,
    Endpoint,
    EndpointPatch,
    EndpointView,
    Request,
    RequestView,
};
use crate::env::{put_env, EnvView};
use crate::error::QuartzError;
use crate::headers::Headers;
use crate::history::{record, EntryView, RequestHistoryEntry, Response, ResponseView};
use crate::pairs::{fill, has_key, put, Entries, PairMap};
use crate::text;
use crate::tree::resolved;
use crate::wire::{self, opt_view, uri_joined, uri_parts, UriParts, UriPartsView};

verus! {

/// How many redirects are followed before the exchange is given up.
pub const MAX_REDIRECTS: usize = 10;

/// What the caller asks for when sending.
pub struct Args {
    /// Variables to change for this request, as `<key>=<value>`.
    pub variables: Vec<String>,
    /// Changes to make to the endpoint for this request.
    pub patch: EndpointPatch,
    /// Do not follow redirects.
    pub no_follow: bool,
    /// Cookies to send along: data as `<name>=<value>`, or the name of a
    /// jar file.
    pub cookies: Vec<String>,
    /// The file to write all cookies to once the exchange is completed.
    pub cookie_jar: Option<String>,
}

/// The phases of an exchange.
#[derive(Debug, Clone, Copy, PartialEq, Eq, Structural)]
pub enum Phase {
    Prepared,
    Sent,
    Redirect,
    Completed,
    Failed,
}

/// The model of an exchange.
pub struct ExchangeView {
    pub phase: Phase,
    pub endpoint: EndpointView,
    pub env_headers: Entries,
    pub jar: Cookies,
    pub follow: bool,
    pub hops: nat,
    pub max_hops: nat,
}

/// An exchange in progress.
pub struct Exchange {
    pub phase: Phase,
    /// The endpoint as it is sent; a redirect changes its URL.
    pub endpoint: Endpoint,
    /// The headers of the environment: they are sent along where the
    /// endpoint sets no header of the same name.
    pub env_headers: Headers,
    /// The cookies known so far.
    pub jar: CookieJar,
    /// Whether redirects are followed.
    pub follow: bool,
    /// How many redirects were followed so far.
    pub hops: usize,
    /// How many redirects may be followed.
    pub max_hops: usize,
}

impl View for Exchange {
    type V = ExchangeView;

    open spec fn view(&self) -> ExchangeView {
        ExchangeView {
            phase: self.phase,
            endpoint: self.endpoint@,
            env_headers: self.env_headers@,
            jar: self.jar@,
            follow: self.follow,
            hops: self.hops as nat,
            max_hops: self.max_hops as nat,
        }
    }
}

/// What the server answered, as far as the exchange depends on it.
pub struct Answer {
    pub status: u16,
    /// The value of the `Location` header.
    pub location: Option<String>,
    /// The value of the `Set-Cookie` header.
    pub set_cookie: Option<String>,
}

/// What came of sending the request.
pub enum Event {
    /// The server answered.
    Answered(Answer),
    /// The request could not be carried to the server, or the answer back.
    Broken,
}

/// What the caller is to do next.
pub enum Action {
    /// Send this request and hand back what comes of it.
    Send(Request),
    /// The exchange is completed: the last answer is the result.
    Finish,
    /// The exchange failed.
    Abort(QuartzError),
    /// Nothing: the exchange is not waiting for an answer.
    Ignore,
}

/// The model of an action.
pub enum ActionView {
    Send(RequestView),
    Finish,
    Abort(QuartzError),
    Ignore,
}

impl View for Action {
    type V = ActionView;

    open spec fn view(&self) -> ActionView {
        match self {
            Action::Send(q) => ActionView::Send(q@),
            Action::Finish => ActionView::Finish,
            Action::Abort(e) => ActionView::Abort(*e),
            Action::Ignore => ActionView::Ignore,
        }
    }
}

/// Whether the status is one of the redirection class.
pub open spec fn is_redirection(status: u16) -> bool {
    300 <= status < 400
}

/// Where a redirect leads, given what the HTTP library made of the URL of
/// the request (`previous`), the `Location` of the answer, the URL that
/// the HTTP library built from the scheme and the authority of the request
/// and the location (`rebuilt`), and what it made of the location taken as
/// a URL (`parsed`). A location that starts with `/` leads to the rebuilt
/// URL; any other leads to itself where it is a URL with a scheme and an
/// authority. Else the redirect leads nowhere.
pub open spec fn chosen_target(
    location: Seq<char>,
    rebuilt: Option<Seq<char>>,
    parsed: Option<UriPartsView>,
) -> Option<Seq<char>> {
    if location.len() > 0 && location[0] == '/' {
        rebuilt
    } else {
        match parsed {
            Some(p) => if p.scheme.is_some() && p.authority.is_some() {
                Some(location)
            } else {
                None
            },
            None => None,
        }
    }
}

/// The URL that the HTTP library builds from the scheme and the authority
/// of `previous` and the path `location`.
pub open spec fn rebuilt_from(previous: Option<UriPartsView>, location: Seq<char>) -> Option<
    Seq<char>,
> {
    match previous {
        Some(p) => match (p.scheme, p.authority) {
            (Some(s), Some(a)) => uri_joined(s, a, location),
            _ => None,
        },
        None => None,
    }
}

/// Where a redirect from the request URL `url` to `location` leads.
pub open spec fn target_of(url: Seq<char>, location: Seq<char>) -> Option<Seq<char>> {
    chosen_target(location, rebuilt_from(uri_parts(url), location), uri_parts(location))
}

/// Where a redirect leads, given what the HTTP library made of the parts.
pub fn choose_target(location: &str, rebuilt: Option<String>, parsed: Option<UriParts>) -> (r:
    Option<String>)
    ensures
        opt_view(r) == chosen_target(
            location@,
            opt_view(rebuilt),
            match parsed {
                Some(p) => Some(p@),
                None => None,
            },
        ),
{
    let v = text::chars_of(location);
    if v.len() > 0 && v[0] == '/' {
        rebuilt
    } else {
        match parsed {
            Some(p) => if p.scheme.is_some() && p.authority.is_some() {
                Some(location.to_owned())
            } else {
                None
            },
            None => None,
        }
    }
}

/// Where a redirect from the request URL `url` to `location` leads: to the
/// scheme and authority of `url` with the path `location` where `location`
/// starts with `/`, to `location` itself where it is a full URL, nowhere
/// else.
pub fn redirect_target(url: &str, location: &str) -> (r: Option<String>)
    ensures
        opt_view(r) == target_of(url@, location@),
{
    let rebuilt = match wire::split_uri(url) {
        Some(p) => match (p.scheme, p.authority) {
            (Some(s), Some(a)) => wire::join_uri(s.as_str(), a.as_str(), location),
            _ => None,
        },
        None => None,
    };
    choose_target(location, rebuilt, wire::split_uri(location))
}

/// What a `--cookie` argument stands for: itself where it holds a `=`,
/// the cookies of the jar file that it names otherwise. `file` is the text
/// of that file, or nothing where there is no such file.
pub open spec fn cookies_of_arg(arg: Seq<char>, file: Option<Seq<char>>) -> Result<
    Seq<Seq<char>>,
    QuartzError,
> {
    if arg.contains('=') {
        Ok(seq![arg])
    } else {
        match file {
            Some(text) => match crate::cookie::parse_jar(text) {
                Some(cs) => Ok(cs.map_values(|c: CookieView| pair_text(c))),
                None => Err(QuartzError::MalformedInput),
            },
            None => Err(QuartzError::MalformedInput),
        }
    }
}

/// Whether a `--cookie` argument names a jar file rather than holding
/// cookie data.
pub fn names_file(arg: &str) -> (r: bool)
    ensures
        r == !arg@.contains('='),
{
    !text::has_char(arg, '=')
}

/// The cookies that a `--cookie` argument stands for. An argument that
/// names a file that is not there, or that is no jar file, is refused.
pub fn expand_cookies(arg: &str, file: Option<&str>) -> (r: Result<Vec<String>, QuartzError>)
    ensures
        match r {
            Ok(v) => cookies_of_arg(
                arg@,
                match file {
                    Some(t) => Some(t@),
                    None => None,
                },
            ) == Ok::<Seq<Seq<char>>, QuartzError>(v.deep_view()),
            Err(e) => cookies_of_arg(
                arg@,
                match file {
                    Some(t) => Some(t@),
                    None => None,
                },
            ) == Err::<Seq<Seq<char>>, QuartzError>(e),
        },
{
    if text::has_char(arg, '=') {
        let mut out: Vec<String> = Vec::new();
        out.push(arg.to_owned());
        assert(out.deep_view() =~= seq![arg@]);
        Ok(out)
    } else {
        match file {
            Some(text) => match CookieJar::parse(text) {
                Ok(jar) => Ok(jar.pairs()),
                Err(e) => Err(e),
            },
            None => Err(QuartzError::MalformedInput),
        }
    }
}

/// The value of the `Cookie` header: the cookies of the jar, then the
/// extra ones, with `; ` between them.
pub open spec fn cookie_line(jar: Cookies, extras: Seq<Seq<char>>) -> Seq<char> {
    text::join(jar.map_values(|c: CookieView| pair_text(c)) + extras, seq![';', ' '])
}

/// The value of the `Cookie` header.
pub fn cookie_header(jar: &CookieJar, extras: &Vec<String>) -> (out: String)
    ensures
        out@ == cookie_line(jar@, extras.deep_view()),
{
    let mut all = jar.pairs();
    let ghost first = all.deep_view();
    let mut i: usize = 0;
    assert(first + extras.deep_view().take(0) =~= first);
    while i < extras.len()
        invariant
            i <= extras.len(),
            all.deep_view() == first + extras.deep_view().take(i as int),
        decreases extras.len() - i,
    {
        let ghost before = all.deep_view();
        let s = extras[i].clone();
        all.push(s);
        assert(all.deep_view() =~= before.push(s@));
        assert(before.push(s@) =~= first + extras.deep_view().take(i + 1));
        i += 1;
    }
    assert(extras.deep_view().take(extras.len() as int) == extras.deep_view());
    proof {
        reveal_strlit("; ");
        assert("; "@ =~= seq![';', ' ']);
    }
    text::joined(&all, "; ")
}

/// The headers with the agent named where they name none.
pub open spec fn with_agent(h: Entries, agent: Seq<char>) -> Entries {
    if has_key(h, text::lowercase("user-agent"@)) {
        h
    } else {
        put(h, text::lowercase("user-agent"@), agent)
    }
}

/// The headers with the cookies, where there are any.
pub open spec fn with_cookies(h: Entries, line: Seq<char>) -> Entries {
    if line.len() > 0 {
        put(h, text::lowercase("Cookie"@), line)
    } else {
        h
    }
}

/// The variables of a scope, or none where there is no scope.
pub open spec fn variables_of(scope: Option<EnvView>) -> Entries {
    match scope {
        Some(s) => s.variables,
        None => Entries::empty(),
    }
}

/// The exchange that is prepared in the session `c`: the endpoint that the
/// handle in use resolves to, with the agent named, the cookies of the
/// environment in use and the extra ones put into a header, the patch
/// made, and the variables filled in: those of the environment, changed
/// as asked, before those of the context, which win.
pub open spec fn prepared(
    c: CtxView,
    variables: Seq<Seq<char>>,
    url: Option<Seq<char>>,
    method: Option<Seq<char>>,
    query: Seq<Seq<char>>,
    headers: Seq<Seq<char>>,
    no_follow: bool,
    extras: Seq<Seq<char>>,
) -> Result<ExchangeView, QuartzError> {
    match handle_in_use(c) {
        Some(p) => match resolved(c.endpoints, p) {
            Ok(e) => match env_in_use(c) {
                Some(env) => if all_pairs(variables) && all_pairs(query) && all_headers(headers) {
                    let named = EndpointView {
                        headers: with_cookies(
                            with_agent(e.headers, "quartz"@),
                            cookie_line(env.cookies, extras),
                        ),
                        ..e
                    };
                    Ok(
                        ExchangeView {
                            phase: Phase::Prepared,
                            endpoint: applied(
                                patched(named, url, method, query, headers),
                                seq![
                                    set_pairs(env.variables, variables),
                                    variables_of(context_in_use(c)),
                                ],
                            ),
                            env_headers: env.headers,
                            jar: env.cookies,
                            follow: !no_follow,
                            hops: 0,
                            max_hops: MAX_REDIRECTS as nat,
                        },
                    )
                } else {
                    Err(QuartzError::MalformedInput)
                },
                None => Err(QuartzError::NotFound),
            },
            Err(e) => Err(e),
        },
        None => Err(QuartzError::NotFound),
    }
}

/// Prepares an exchange for the endpoint in use. `extras` are the cookies
/// that the `--cookie` arguments stand for.
pub fn prepare(ctx: &Ctx, args: &Args, extras: &Vec<String>) -> (r: Result<Exchange, QuartzError>)
    ensures
        match r {
            Ok(x) => prepared(
                ctx@,
                args.variables.deep_view(),
                opt_view(args.patch.url),
                opt_view(args.patch.method),
                args.patch.query.deep_view(),
                args.patch.headers.deep_view(),
                args.no_follow,
                extras.deep_view(),
            ) == Ok::<ExchangeView, QuartzError>(x@),
            Err(e) => prepared(
                ctx@,
                args.variables.deep_view(),
                opt_view(args.patch.url),
                opt_view(args.patch.method),
                args.patch.query.deep_view(),
                args.patch.headers.deep_view(),
                args.no_follow,
                extras.deep_view(),
            ) == Err::<ExchangeView, QuartzError>(e),
        },
{
    let handle = match ctx.require_handle() {
        Ok(h) => h,
        Err(e) => {
            return Err(e);
        },
    };
    let mut endpoint = match ctx.endpoints.resolve(&handle) {
        Ok(e) => e,
        Err(e) => {
            return Err(e);
        },
    };
    let env = match ctx.require_env() {
        Ok(e) => e,
        Err(e) => {
            return Err(e);
        },
    };
    let mut variables = env.variables.clone();
    let mut i: usize = 0;
    let ghost inputs = args.variables.deep_view();
    assert(inputs.take(0) == Seq::<Seq<char>>::empty());
    while i < args.variables.len()
        invariant
            i <= args.variables.len(),
            inputs == args.variables.deep_view(),
            all_pairs(inputs.take(i as int)),
            variables@ == set_pairs(env.variables@, inputs.take(i as int)),
            handle_in_use(ctx@) == Some(handle@),
            resolved(ctx@.endpoints, handle@) == Ok::<EndpointView, QuartzError>(endpoint@),
            env_in_use(ctx@) == Some(env@),
        decreases args.variables.len() - i,
    {
        proof {
            let t = inputs.take(i + 1);
            assert(t.drop_last() == inputs.take(i as int));
            assert(t.last() == inputs[i as int]);
        }
        match variables.set(args.variables[i].as_str()) {
            Ok(_) => {},
            Err(_) => {
                assert(crate::pairs::pair_of(inputs[i as int]).is_none());
                return Err(QuartzError::MalformedInput);
            },
        }
        i += 1;
        assert forall|j: int| 0 <= j < i implies crate::pairs::pair_of(
            #[trigger] inputs.take(i as int)[j],
        ).is_some() by {
            if j < i - 1 {
                assert(inputs.take(i - 1)[j] == inputs[j]);
            }
        }
    }
    assert(inputs.take(inputs.len() as int) == inputs);
    if !endpoint.headers.contains_key("user-agent") {
        endpoint.headers.insert("user-agent", Ctx::user_agent());
    }
    let line = cookie_header(&env.cookies, extras);
    if line.as_str().unicode_len() > 0 {
        endpoint.headers.insert("Cookie", line);
    }
    match endpoint.update(&args.patch) {
        Ok(_) => {},
        Err(e) => {
            return Err(e);
        },
    }
    let context = match ctx.require_context() {
        Ok(c) => c.variables,
        Err(_) => PairMap::new(),
    };
    let mut scopes: Vec<&PairMap> = Vec::new();
    scopes.push(&variables);
    scopes.push(&context);
    assert(crate::template::models(scopes@) =~= seq![variables@, context@]);
    endpoint.apply_env(&scopes);
    Ok(
        Exchange {
            phase: Phase::Prepared,
            endpoint,
            env_headers: env.headers,
            jar: env.cookies,
            follow: !args.no_follow,
            hops: 0,
            max_hops: MAX_REDIRECTS,
        },
    )
}

/// The request that goes out for the exchange: that of its endpoint, with
/// the headers of the environment where the endpoint sets none of the same
/// name. There is none where the HTTP library refuses a part of it.
pub open spec fn outgoing(x: ExchangeView) -> Result<RequestView, QuartzError> {
    let e = EndpointView { headers: fill(x.endpoint.headers, x.env_headers), ..x.endpoint };
    if sendable(e) {
        Ok(
            RequestView {
                method: e.method,
                url: full_url(e.url, e.query),
                headers: e.headers,
                body: e.body,
            },
        )
    } else {
        Err(QuartzError::MalformedInput)
    }
}

/// The exchange after its request was handed out, and what the caller is
/// to do. An exchange that is prepared, or was redirected, is sent, or
/// fails where it has no request to send. Any other is left alone.
pub open spec fn launched(x: ExchangeView) -> (ExchangeView, ActionView) {
    if x.phase == Phase::Prepared || x.phase == Phase::Redirect {
        match outgoing(x) {
            Ok(q) => (ExchangeView { phase: Phase::Sent, ..x }, ActionView::Send(q)),
            Err(e) => (ExchangeView { phase: Phase::Failed, ..x }, ActionView::Abort(e)),
        }
    } else {
        (x, ActionView::Ignore)
    }
}

/// The jar after an answer to the request for `url`: the cookie that the
/// `Set-Cookie` header gives is set for the host of `url`. A header that
/// gives no cookie that can be kept changes nothing.
pub open spec fn collected(jar: Cookies, url: Seq<char>, set_cookie: Option<Seq<char>>) -> Cookies {
    match (set_cookie, uri_parts(url)) {
        (Some(header), Some(parts)) => match (parts.host, cookie_pair(header)) {
            (Some(domain), Some((name, value))) => if is_clean(CookieView { domain, name, value }) {
                put_cookie(jar, CookieView { domain, name, value })
            } else {
                jar
            },
            _ => jar,
        },
        _ => jar,
    }
}

/// The exchange after an event, and what the caller is to do. Only an
/// exchange whose request was sent takes events. A broken transport makes
/// it fail. An answer has its cookie collected; then the exchange is
/// completed, unless redirects are followed, the answer redirects and its
/// location leads somewhere: then the URL is replaced and the request is
/// sent again, or the exchange fails where the allowed number of redirects
/// was followed already.
pub open spec fn stepped(
    x: ExchangeView,
    broken: bool,
    status: u16,
    location: Option<Seq<char>>,
    set_cookie: Option<Seq<char>>,
) -> (ExchangeView, ActionView) {
    if x.phase != Phase::Sent {
        (x, ActionView::Ignore)
    } else if broken {
        (
            ExchangeView { phase: Phase::Failed, ..x },
            ActionView::Abort(QuartzError::TransportFailure),
        )
    } else {
        let url = full_url(x.endpoint.url, x.endpoint.query);
        let heard = ExchangeView { jar: collected(x.jar, url, set_cookie), ..x };
        let done = (ExchangeView { phase: Phase::Completed, ..heard }, ActionView::Finish);
        if !x.follow || !is_redirection(status) {
            done
        } else {
            match location {
                Some(l) => match target_of(url, l) {
                    Some(t) => if x.hops >= x.max_hops {
                        (
                            ExchangeView { phase: Phase::Failed, ..heard },
                            ActionView::Abort(QuartzError::TooManyRedirects),
                        )
                    } else {
                        launched(
                            ExchangeView {
                                phase: Phase::Redirect,
                                hops: x.hops + 1,
                                endpoint: EndpointView { url: t, ..x.endpoint },
                                ..heard
                            },
                        )
                    },
                    None => done,
                },
                None => done,
            }
        }
    }
}

/// An exchange that is completed or has failed stays as it is, whatever
/// comes.
pub proof fn lemma_over_is_over(
    x: ExchangeView,
    broken: bool,
    status: u16,
    location: Option<Seq<char>>,
    set_cookie: Option<Seq<char>>,
)
    requires
        x.phase == Phase::Completed || x.phase == Phase::Failed,
    ensures
        stepped(x, broken, status, location, set_cookie) == (x, ActionView::Ignore),
        launched(x) == (x, ActionView::Ignore),
{
}

/// After an event, an exchange whose request was sent is waiting for the
/// next answer, completed or failed; it asks for a request to be sent
/// exactly where it is waiting again. It never follows more redirects than
/// it may, and it keeps the cookies it knew unless the answer set one.
pub proof fn lemma_step(
    x: ExchangeView,
    broken: bool,
    status: u16,
    location: Option<Seq<char>>,
    set_cookie: Option<Seq<char>>,
)
    requires
        x.phase == Phase::Sent,
        x.hops <= x.max_hops,
    ensures
        ({
            let (y, action) = stepped(x, broken, status, location, set_cookie);
            &&& y.phase == Phase::Sent || y.phase == Phase::Completed || y.phase == Phase::Failed
            &&& y.phase == Phase::Sent <==> action is Send
            &&& y.phase == Phase::Completed <==> action is Finish
            &&& y.phase == Phase::Failed <==> action is Abort
            &&& y.hops <= y.max_hops
            &&& y.max_hops == x.max_hops
            &&& y.follow == x.follow
            &&& set_cookie.is_none() ==> y.jar == x.jar
            &&& broken ==> action == ActionView::Abort(QuartzError::TransportFailure)
            &&& !broken && (!x.follow || !is_redirection(status) || location.is_none())
                ==> y.phase == Phase::Completed && y.endpoint == x.endpoint
        }),
{
}

impl Exchange {
    /// Hands out the request of an exchange that is prepared or was
    /// redirected.
    pub fn launch(&mut self) -> (action: Action)
        ensures
            final(self)@ == launched(old(self)@).0,
            action@ == launched(old(self)@).1,
    {
        match self.phase {
            Phase::Prepared | Phase::Redirect => {
                let mut sent = self.endpoint.clone();
                sent.headers.fill(&self.env_headers);
                match sent.as_request() {
                    Ok(q) => {
                        self.phase = Phase::Sent;
                        Action::Send(q)
                    },
                    Err(e) => {
                        self.phase = Phase::Failed;
                        Action::Abort(e)
                    },
                }
            },
            _ => Action::Ignore,
        }
    }

    /// Takes what came of sending the request and says what to do next.
    pub fn step(&mut self, event: Event) -> (action: Action)
        ensures
            match event {
                Event::Answered(a) => final(self)@ == stepped(
                    old(self)@,
                    false,
                    a.status,
                    opt_view(a.location),
                    opt_view(a.set_cookie),
                ).0 && action@ == stepped(
                    old(self)@,
                    false,
                    a.status,
                    opt_view(a.location),
                    opt_view(a.set_cookie),
                ).1,
                Event::Broken => final(self)@ == stepped(old(self)@, true, 0, None, None).0
                    && action@ == stepped(old(self)@, true, 0, None, None).1,
            },
    {
        match self.phase {
            Phase::Sent => {},
            _ => {
                return Action::Ignore;
            },
        }
        let answer = match event {
            Event::Answered(a) => a,
            Event::Broken => {
                self.phase = Phase::Failed;
                return Action::Abort(QuartzError::TransportFailure);
            },
        };
        let url = self.endpoint.full_url();
        match &answer.set_cookie {
            Some(header) => match wire::split_uri(url.as_str()) {
                Some(parts) => match &parts.host {
                    Some(domain) => {
                        let _ = self.jar.set(domain.as_str(), header.as_str());
                    },
                    None => {},
                },
                None => {},
            },
            None => {},
        }
        if !self.follow || !(answer.status >= 300 && answer.status < 400) {
            self.phase = Phase::Completed;
            return Action::Finish;
        }
        let target = match &answer.location {
            Some(l) => redirect_target(url.as_str(), l.as_str()),
            None => None,
        };
        match target {
            Some(t) => {
                if self.hops >= self.max_hops {
                    self.phase = Phase::Failed;
                    Action::Abort(QuartzError::TooManyRedirects)
                } else {
                    self.phase = Phase::Redirect;
                    self.hops = self.hops + 1;
                    self.endpoint.url = t;
                    self.launch()
                }
            },
            None => {
                self.phase = Phase::Completed;
                Action::Finish
            },
        }
    }
}

/// What is to be written to the jar file once an exchange is completed.
pub struct JarFile {
    /// The file that the caller named, or nothing where the cookies go to
    /// the jar of the environment in use.
    pub path: Option<String>,
    /// The text of the file.
    pub text: String,
}

/// The entry that records a completed exchange.
pub open spec fn entry_of(
    c: CtxView,
    x: ExchangeView,
    response: ResponseView,
    messages: Seq<Seq<char>>,
    time: u64,
    duration: u64,
) -> EntryView {
    EntryView {
        path: match handle_in_use(c) {
            Some(p) => p,
            None => Seq::<Seq<char>>::empty(),
        },
        endpoint: Some(x.endpoint),
        context: context_in_use(c),
        response: Some(response),
        messages,
        time,
        duration,
    }
}

/// The session after a completed exchange was recorded: the history has
/// its entry, and the environment in use has its cookies, unless they go
/// to a file that the caller named.
pub open spec fn completed(
    c: CtxView,
    x: ExchangeView,
    response: ResponseView,
    messages: Seq<Seq<char>>,
    time: u64,
    duration: u64,
    to_file: bool,
) -> CtxView {
    CtxView {
        history: record(c.history, entry_of(c, x, response, messages, time, duration)),
        envs: match env_in_use(c) {
            Some(env) => if to_file {
                c.envs
            } else {
                put_env(c.envs, EnvView { cookies: x.jar, ..env })
            },
            None => c.envs,
        },
        ..c
    }
}

/// Records a completed exchange: writes its entry into the history, with
/// the messages as they went over the wire, and hands its cookies to the
/// environment in use, or to the caller where a jar file was named. An
/// exchange that is not completed is refused and leaves no trace.
pub fn complete(
    ctx: &mut Ctx,
    exchange: Exchange,
    response: Response,
    messages: Vec<String>,
    time: u64,
    duration: u64,
    cookie_jar: Option<String>,
) -> (r: Result<JarFile, QuartzError>)
    ensures
        r.is_ok() <==> exchange@.phase == Phase::Completed,
        match r {
            Ok(f) => final(ctx)@ == completed(
                old(ctx)@,
                exchange@,
                response@,
                messages.deep_view(),
                time,
                duration,
                cookie_jar.is_some(),
            ) && f.text@ == crate::cookie::jar_text(exchange@.jar) && opt_view(f.path) == opt_view(
                cookie_jar,
            ),
            Err(e) => e == QuartzError::MalformedInput && final(ctx)@ == old(ctx)@,
        },
{
    match exchange.phase {
        Phase::Completed => {},
        _ => {
            return Err(QuartzError::MalformedInput);
        },
    }
    let mut entry = RequestHistoryEntry::new(time);
    match ctx.require_handle() {
        Ok(h) => {
            entry.path(h.path());
        },
        Err(_) => {},
    }
    entry.endpoint(&exchange.endpoint);
    match ctx.require_context() {
        Ok(c) => {
            entry.context(&c);
        },
        Err(_) => {},
    }
    entry.response(response);
    entry.duration(duration);
    entry.messages = messages;
    let text = exchange.jar.render();
    if cookie_jar.is_none() {
        match ctx.require_env() {
            Ok(env) => {
                let mut env = env;
                env.cookies = exchange.jar;
                ctx.envs.put(env);
            },
            Err(_) => {},
        }
    }
    ctx.history.write(entry);
    Ok(JarFile { path: cookie_jar, text })
}

} // verus!
