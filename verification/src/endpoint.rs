//! Endpoints: the request templates kept at the nodes of the tree.

use vstd::prelude::*;
use vstd::string::StringExecFns;
use crate::error::QuartzError;
use crate::headers::{header_of, Headers};
use crate::pairs::{overlay, pair_of, put, Entries, PairMap};
use crate::template::{models, substituted, substitute};
use crate::text;
use crate::wire;

verus! {

/// The model of an endpoint.
pub struct EndpointView {
    pub url: Seq<char>,
    pub method: Seq<char>,
    pub headers: Entries,
    pub query: Entries,
    pub body: Seq<char>,
}

/// A request template: where to send, how, and what.
pub struct Endpoint {
    pub url: String,
    /// HTTP request method.
    pub method: String,
    pub headers: Headers,
    pub query: PairMap,
    pub body: String,
}

impl View for Endpoint {
    type V = EndpointView;

    open spec fn view(&self) -> EndpointView {
        EndpointView {
            url: self.url@,
            method: self.method@,
            headers: self.headers@,
            query: self.query@,
            body: self.body@,
        }
    }
}

/// Changes to make to an endpoint: a new URL, a new method, query
/// parameters as `<key>=<value>` and headers as `<key>: <value>`.
pub struct EndpointPatch {
    pub url: Option<String>,
    pub method: Option<String>,
    pub query: Vec<String>,
    pub headers: Vec<String>,
}

/// The colour in which a method is shown.
#[derive(Debug, Clone, Copy, PartialEq, Eq, Structural)]
pub enum Color {
    Blue,
    Green,
    Yellow,
    Red,
    Cyan,
    White,
}

/// A request as it is handed to the transport: every part has been checked.
pub struct Request {
    pub method: String,
    pub url: String,
    pub headers: Headers,
    pub body: String,
}

/// The model of a request.
pub struct RequestView {
    pub method: Seq<char>,
    pub url: Seq<char>,
    pub headers: Entries,
    pub body: Seq<char>,
}

impl View for Request {
    type V = RequestView;

    open spec fn view(&self) -> RequestView {
        RequestView { method: self.method@, url: self.url@, headers: self.headers@, body: self.body@ }
    }
}

/// The method of an endpoint that sets none.
pub open spec fn default_method() -> Seq<char> {
    seq!['G', 'E', 'T']
}

/// The endpoint that sets nothing at all.
pub open spec fn blank() -> EndpointView {
    EndpointView {
        url: Seq::<char>::empty(),
        method: Seq::<char>::empty(),
        headers: Entries::empty(),
        query: Entries::empty(),
        body: Seq::<char>::empty(),
    }
}

/// What a node hands down to the node below it: `over` laid on `base`. The
/// URL and the method of `over` count where they are not empty; headers
/// and query parameters of `over` are set on those of `base`; the body is
/// that of `over`.
pub open spec fn inherit(base: EndpointView, over: EndpointView) -> EndpointView {
    EndpointView {
        url: if over.url.len() > 0 {
            over.url
        } else {
            base.url
        },
        method: if over.method.len() > 0 {
            over.method
        } else {
            base.method
        },
        headers: overlay(base.headers, over.headers),
        query: overlay(base.query, over.query),
        body: over.body,
    }
}

/// `e` with the default method where it sets none.
pub open spec fn with_default_method(e: EndpointView) -> EndpointView {
    EndpointView {
        method: if e.method.len() > 0 {
            e.method
        } else {
            default_method()
        },
        ..e
    }
}

/// The query parameters as they stand in a URL: `<key>=<value>` for each,
/// with `&` between them.
pub open spec fn query_text(q: Entries) -> Seq<char>
    decreases q.len(),
{
    if q.len() == 0 {
        Seq::<char>::empty()
    } else if q.len() == 1 {
        q[0].0 + seq!['='] + q[0].1
    } else {
        query_text(q.drop_last()) + seq!['&'] + q.last().0 + seq!['='] + q.last().1
    }
}

/// The URL with the query parameters behind it: after a `?`, or after a
/// `&` where the URL holds a `?` already.
pub open spec fn full_url(url: Seq<char>, query: Entries) -> Seq<char> {
    if query.len() == 0 {
        url
    } else if url.contains('?') {
        url + seq!['&'] + query_text(query)
    } else {
        url + seq!['?'] + query_text(query)
    }
}

/// The entries with the variables filled into each value; keys stay.
pub open spec fn filled(e: Entries, scopes: Seq<Entries>) -> Entries {
    e.map_values(|p: (Seq<char>, Seq<char>)| (p.0, substituted(p.1, scopes)))
}

/// The endpoint with the variables filled into its URL, into the value of
/// each header and query parameter, and into its body.
pub open spec fn applied(e: EndpointView, scopes: Seq<Entries>) -> EndpointView {
    EndpointView {
        url: substituted(e.url, scopes),
        method: e.method,
        headers: filled(e.headers, scopes),
        query: filled(e.query, scopes),
        body: substituted(e.body, scopes),
    }
}

/// Whether every input holds a `<key>=<value>` pair.
pub open spec fn all_pairs(inputs: Seq<Seq<char>>) -> bool {
    forall|i: int| 0 <= i < inputs.len() ==> pair_of(#[trigger] inputs[i]).is_some()
}

/// Whether every input holds a `<key>: <value>` header.
pub open spec fn all_headers(inputs: Seq<Seq<char>>) -> bool {
    forall|i: int| 0 <= i < inputs.len() ==> header_of(#[trigger] inputs[i]).is_some()
}

/// `e` with the pair of each input set on it, in order. An input that
/// holds no pair sets nothing.
pub open spec fn set_pairs(e: Entries, inputs: Seq<Seq<char>>) -> Entries
    decreases inputs.len(),
{
    if inputs.len() == 0 {
        e
    } else {
        let rest = set_pairs(e, inputs.drop_last());
        match pair_of(inputs.last()) {
            Some((k, v)) => put(rest, k, v),
            None => rest,
        }
    }
}

/// `e` with the header of each input set on it, in order. An input that
/// holds no header sets nothing.
pub open spec fn set_headers(e: Entries, inputs: Seq<Seq<char>>) -> Entries
    decreases inputs.len(),
{
    if inputs.len() == 0 {
        e
    } else {
        let rest = set_headers(e, inputs.drop_last());
        match header_of(inputs.last()) {
            Some((k, v)) => put(rest, k, v),
            None => rest,
        }
    }
}

/// The endpoint after a patch: URL and method replaced where the patch
/// gives one, query parameters and headers set.
pub open spec fn patched(
    e: EndpointView,
    url: Option<Seq<char>>,
    method: Option<Seq<char>>,
    query: Seq<Seq<char>>,
    headers: Seq<Seq<char>>,
) -> EndpointView {
    EndpointView {
        url: match url {
            Some(u) => u,
            None => e.url,
        },
        method: match method {
            Some(m) => m,
            None => e.method,
        },
        headers: set_headers(e.headers, headers),
        query: set_pairs(e.query, query),
        body: e.body,
    }
}

/// The colour of a method.
pub open spec fn color_of(method: Seq<char>) -> Color {
    if method == "GET"@ {
        Color::Blue
    } else if method == "POST"@ {
        Color::Green
    } else if method == "PUT"@ || method == "PATCH"@ {
        Color::Yellow
    } else if method == "DELETE"@ {
        Color::Red
    } else if method == "OPTIONS"@ || method == "HEAD"@ {
        Color::Cyan
    } else {
        Color::White
    }
}

/// Whether the endpoint can be sent as it stands: the HTTP library reads
/// its full URL as a URL, and accepts its method and each of its headers.
pub open spec fn sendable(e: EndpointView) -> bool {
    &&& wire::uri_parts(full_url(e.url, e.query)).is_some()
    &&& wire::is_method(e.method)
    &&& forall|i: int|
        0 <= i < e.headers.len() ==> wire::is_header_name((#[trigger] e.headers[i]).0)
            && wire::is_header_value(e.headers[i].1)
}

impl Endpoint {
    /// The endpoint that sets nothing but the default method.
    pub fn new() -> (e: Self)
        ensures
            e@ == with_default_method(blank()),
    {
        proof {
            reveal_strlit("GET");
            assert("GET"@ =~= default_method());
        }
        Endpoint {
            url: String::new(),
            method: String::from_str("GET"),
            headers: Headers::new(),
            query: PairMap::new(),
            body: String::new(),
        }
    }

    /// The endpoint that sets nothing at all: laid on another, it leaves
    /// everything but the body to the other.
    pub fn blank() -> (e: Self)
        ensures
            e@ == blank(),
    {
        Endpoint {
            url: String::new(),
            method: String::new(),
            headers: Headers::new(),
            query: PairMap::new(),
            body: String::new(),
        }
    }

    /// The name under which `name` is stored.
    pub fn name_to_dir(name: &str) -> (out: String)
        ensures
            out@ == crate::handle::segment_of(name@),
    {
        crate::handle::name_to_dir(name)
    }

    /// The query parameters as they stand in a URL.
    pub fn query_string(&self) -> (out: String)
        ensures
            out@ == query_text(self.query@),
    {
        let mut out = String::new();
        let mut i: usize = 0;
        proof {
            reveal_strlit("&");
            reveal_strlit("=");
            assert("&"@ =~= seq!['&']);
            assert("="@ =~= seq!['=']);
            assert(self.query@.take(0) == Entries::empty());
        }
        while i < self.query.len()
            invariant
                i <= self.query@.len(),
                "&"@ == seq!['&'],
                "="@ == seq!['='],
                out@ == query_text(self.query@.take(i as int)),
            decreases self.query@.len() - i,
        {
            let p = self.query.entry(i);
            proof {
                let t = self.query@.take(i + 1);
                assert(t.drop_last() == self.query@.take(i as int));
                assert(t.last() == self.query@[i as int]);
                if i == 0 {
                    assert(t[0] == self.query@[0]);
                    assert(Seq::<char>::empty() + p.key@ == p.key@);
                }
            }
            if i > 0 {
                out.append("&");
            }
            out.append(p.key.as_str());
            out.append("=");
            out.append(p.value.as_str());
            i += 1;
        }
        assert(self.query@.take(self.query@.len() as int) == self.query@);
        out
    }

    /// The URL with the query parameters behind it.
    pub fn full_url(&self) -> (out: String)
        ensures
            out@ == full_url(self.url@, self.query@),
    {
        let mut out = self.url.clone();
        if self.query.len() > 0 {
            proof {
                reveal_strlit("&");
                reveal_strlit("?");
                assert("&"@ =~= seq!['&']);
                assert("?"@ =~= seq!['?']);
            }
            if text::has_char(self.url.as_str(), '?') {
                out.append("&");
            } else {
                out.append("?");
            }
            let query = self.query_string();
            out.append(query.as_str());
        }
        out
    }

    /// The colour in which the method of the endpoint is shown.
    pub fn colored_method(&self) -> (c: Color)
        ensures
            c == color_of(self.method@),
    {
        method_color(self.method.as_str())
    }

    /// Lays `over` on this endpoint: what a node hands down, given what it
    /// was handed itself.
    pub fn inherit(&mut self, over: &Endpoint)
        ensures
            final(self)@ == inherit(old(self)@, over@),
    {
        if over.url.as_str().unicode_len() > 0 {
            self.url = over.url.clone();
        }
        if over.method.as_str().unicode_len() > 0 {
            self.method = over.method.clone();
        }
        self.headers.merge(&over.headers);
        self.query.merge(&over.query);
        self.body = over.body.clone();
    }

    /// Fills the variables of the scopes into the URL, into the value of
    /// each header and query parameter, and into the body. Keys are left
    /// alone, and so is the method.
    pub fn apply_env(&mut self, scopes: &Vec<&PairMap>)
        ensures
            final(self)@ == applied(old(self)@, models(scopes@)),
    {
        self.url = substitute(self.url.as_str(), scopes);
        fill_headers(&mut self.headers, scopes);
        fill_pairs(&mut self.query, scopes);
        self.body = substitute(self.body.as_str(), scopes);
    }

    /// Makes the changes of `patch`. Where one of its inputs holds no pair
    /// or no header, nothing is changed and the patch is refused.
    pub fn update(&mut self, patch: &EndpointPatch) -> (r: Result<(), QuartzError>)
        ensures
            r.is_ok() <==> all_pairs(patch.query.deep_view()) && all_headers(
                patch.headers.deep_view(),
            ),
            match r {
                Ok(_) => final(self)@ == patched(
                    old(self)@,
                    wire::opt_view(patch.url),
                    wire::opt_view(patch.method),
                    patch.query.deep_view(),
                    patch.headers.deep_view(),
                ),
                Err(e) => e == QuartzError::MalformedInput && final(self)@ == old(self)@,
            },
    {
        let mut query = self.query.clone();
        let mut i: usize = 0;
        let ghost inputs = patch.query.deep_view();
        assert(inputs.take(0) == Seq::<Seq<char>>::empty());
        while i < patch.query.len()
            invariant
                i <= patch.query.len(),
                inputs == patch.query.deep_view(),
                all_pairs(inputs.take(i as int)),
                query@ == set_pairs(self.query@, inputs.take(i as int)),
            decreases patch.query.len() - i,
        {
            proof {
                let t = inputs.take(i + 1);
                assert(t.drop_last() == inputs.take(i as int));
                assert(t.last() == inputs[i as int]);
            }
            match query.set(patch.query[i].as_str()) {
                Ok(_) => {},
                Err(_) => {
                    assert(pair_of(inputs[i as int]).is_none());
                    return Err(QuartzError::MalformedInput);
                },
            }
            i += 1;
            assert forall|j: int| 0 <= j < i implies pair_of(
                #[trigger] inputs.take(i as int)[j],
            ).is_some() by {
                if j < i - 1 {
                    assert(inputs.take(i - 1)[j] == inputs[j]);
                }
            }
        }
        assert(inputs.take(inputs.len() as int) == inputs);
        let mut headers = self.headers.clone();
        let mut i: usize = 0;
        let ghost inputs = patch.headers.deep_view();
        assert(inputs.take(0) == Seq::<Seq<char>>::empty());
        while i < patch.headers.len()
            invariant
                i <= patch.headers.len(),
                inputs == patch.headers.deep_view(),
                all_headers(inputs.take(i as int)),
                headers@ == set_headers(self.headers@, inputs.take(i as int)),
            decreases patch.headers.len() - i,
        {
            proof {
                let t = inputs.take(i + 1);
                assert(t.drop_last() == inputs.take(i as int));
                assert(t.last() == inputs[i as int]);
            }
            match headers.set(patch.headers[i].as_str()) {
                Ok(_) => {},
                Err(_) => {
                    assert(header_of(inputs[i as int]).is_none());
                    return Err(QuartzError::MalformedInput);
                },
            }
            i += 1;
            assert forall|j: int| 0 <= j < i implies header_of(
                #[trigger] inputs.take(i as int)[j],
            ).is_some() by {
                if j < i - 1 {
                    assert(inputs.take(i - 1)[j] == inputs[j]);
                }
            }
        }
        assert(inputs.take(inputs.len() as int) == inputs);
        match &patch.url {
            Some(u) => {
                self.url = u.clone();
            },
            None => {},
        }
        match &patch.method {
            Some(m) => {
                self.method = m.clone();
            },
            None => {},
        }
        self.query = query;
        self.headers = headers;
        Ok(())
    }

    /// The request that the endpoint stands for, where the HTTP library
    /// accepts its URL, its method and its headers.
    pub fn as_request(&self) -> (r: Result<Request, QuartzError>)
        ensures
            match r {
                Ok(q) => sendable(self@) && q@ == (RequestView {
                    method: self.method@,
                    url: full_url(self.url@, self.query@),
                    headers: self.headers@,
                    body: self.body@,
                }),
                Err(e) => e == QuartzError::MalformedInput && !sendable(self@),
            },
    {
        let url = self.full_url();
        if wire::split_uri(url.as_str()).is_none() {
            return Err(QuartzError::MalformedInput);
        }
        if !wire::accepts_method(self.method.as_str()) {
            return Err(QuartzError::MalformedInput);
        }
        let mut i: usize = 0;
        while i < self.headers.len()
            invariant
                i <= self.headers@.len(),
                forall|j: int|
                    0 <= j < i ==> wire::is_header_name((#[trigger] self.headers@[j]).0)
                        && wire::is_header_value(self.headers@[j].1),
            decreases self.headers@.len() - i,
        {
            let p = self.headers.entry(i);
            if !wire::accepts_header_name(p.key.as_str()) || !wire::accepts_header_value(
                p.value.as_str(),
            ) {
                assert(self@.headers[i as int] == p@);
                assert(!(wire::is_header_name(self@.headers[i as int].0)
                    && wire::is_header_value(self@.headers[i as int].1)));
                return Err(QuartzError::MalformedInput);
            }
            i += 1;
        }
        Ok(
            Request {
                method: self.method.clone(),
                url,
                headers: self.headers.clone(),
                body: self.body.clone(),
            },
        )
    }
}

/// The colour in which a method is shown.
pub fn method_color(m: &str) -> (c: Color)
    ensures
        c == color_of(m@),
{
    if text::same(m, "GET") {
        Color::Blue
    } else if text::same(m, "POST") {
        Color::Green
    } else if text::same(m, "PUT") || text::same(m, "PATCH") {
        Color::Yellow
    } else if text::same(m, "DELETE") {
        Color::Red
    } else if text::same(m, "OPTIONS") || text::same(m, "HEAD") {
        Color::Cyan
    } else {
        Color::White
    }
}

/// Fills the variables of the scopes into each value of `map`.
pub fn fill_pairs(map: &mut PairMap, scopes: &Vec<&PairMap>)
    ensures
        final(map)@ == filled(old(map)@, models(scopes@)),
{
    let mut i: usize = 0;
    let n = map.len();
    while i < n
        invariant
            i <= n,
            n == old(map)@.len(),
            map@.len() == n,
            forall|j: int|
                0 <= j < i ==> map@[j] == (
                    old(map)@[j].0,
                    substituted(old(map)@[j].1, models(scopes@)),
                ),
            forall|j: int| i <= j < n ==> map@[j] == old(map)@[j],
        decreases n - i,
    {
        let value = substitute(map.entry(i).value.as_str(), scopes);
        map.revalue(i, value);
        i += 1;
    }
    assert(map@ =~= filled(old(map)@, models(scopes@)));
}

/// Fills the variables of the scopes into each value of `headers`.
pub fn fill_headers(headers: &mut Headers, scopes: &Vec<&PairMap>)
    ensures
        final(headers)@ == filled(old(headers)@, models(scopes@)),
{
    let mut i: usize = 0;
    let n = headers.len();
    while i < n
        invariant
            i <= n,
            n == old(headers)@.len(),
            headers@.len() == n,
            forall|j: int|
                0 <= j < i ==> headers@[j] == (
                    old(headers)@[j].0,
                    substituted(old(headers)@[j].1, models(scopes@)),
                ),
            forall|j: int| i <= j < n ==> headers@[j] == old(headers)@[j],
        decreases n - i,
    {
        let value = substitute(headers.entry(i).value.as_str(), scopes);
        headers.revalue(i, value);
        i += 1;
    }
    assert(headers@ =~= filled(old(headers)@, models(scopes@)));
}

impl Clone for Endpoint {
    fn clone(&self) -> (r: Self)
        ensures
            r@ == self@,
    {
        Endpoint {
            url: self.url.clone(),
            method: self.method.clone(),
            headers: self.headers.clone(),
            query: self.query.clone(),
            body: self.body.clone(),
        }
    }
}

impl Default for Endpoint {
    fn default() -> (e: Self)
        ensures
            e@ == with_default_method(blank()),
    {
        Endpoint::new()
    }
}

} // verus!
