//! What the HTTP library decides: which methods, header names, header
//! values and URLs it accepts, and how it takes a URL apart and puts one
//! together. Nothing here is proved; each function states what the HTTP
//! library is taken to do.

use vstd::prelude::*;

verus! {

/// The parts of a URL, each as it is written in the URL.
pub struct UriParts {
    pub scheme: Option<String>,
    pub authority: Option<String>,
    pub host: Option<String>,
    pub path_and_query: Option<String>,
}

/// The model of `UriParts`.
pub struct UriPartsView {
    pub scheme: Option<Seq<char>>,
    pub authority: Option<Seq<char>>,
    pub host: Option<Seq<char>>,
    pub path_and_query: Option<Seq<char>>,
}

/// The characters of an optional string.
pub open spec fn opt_view(o: Option<String>) -> Option<Seq<char>> {
    match o {
        Some(s) => Some(s@),
        None => None,
    }
}

impl View for UriParts {
    type V = UriPartsView;

    open spec fn view(&self) -> UriPartsView {
        UriPartsView {
            scheme: opt_view(self.scheme),
            authority: opt_view(self.authority),
            host: opt_view(self.host),
            path_and_query: opt_view(self.path_and_query),
        }
    }
}

/// The parts that the HTTP library reads out of `url`, or nothing where it
/// refuses `url`.
pub uninterp spec fn uri_parts(url: Seq<char>) -> Option<UriPartsView>;

/// The URL that the HTTP library builds from a scheme, an authority and a
/// path with its query, or nothing where it refuses one of them.
pub uninterp spec fn uri_joined(scheme: Seq<char>, authority: Seq<char>, path: Seq<char>) -> Option<
    Seq<char>,
>;

/// Whether `c` may stand in a method.
pub open spec fn is_method_char(c: char) -> bool {
    ||| c == '!'
    ||| c == '*'
    ||| c == '+'
    ||| c == '-'
    ||| c == '.'
    ||| '0' <= c <= '9'
    ||| 'A' <= c <= 'Z'
    ||| c == '^'
    ||| c == '_'
    ||| c == '`'
    ||| 'a' <= c <= 'z'
    ||| c == '|'
    ||| c == '~'
}

/// Whether `m` can be a request method: one character or more, each of
/// them allowed in a method.
pub open spec fn is_method(m: Seq<char>) -> bool {
    m.len() > 0 && forall|i: int| 0 <= i < m.len() ==> is_method_char(#[trigger] m[i])
}

/// Whether `c` may stand in a header name.
pub open spec fn is_name_char(c: char) -> bool {
    ||| '!' <= c <= '\''
    ||| c == '*'
    ||| c == '+'
    ||| c == '-'
    ||| c == '.'
    ||| '0' <= c <= '9'
    ||| 'A' <= c <= 'Z'
    ||| '^' <= c <= 'z'
    ||| c == '|'
    ||| c == '~'
}

/// Whether `n` can be a header name: between one and 65535 characters,
/// each of them allowed in a header name.
pub open spec fn is_header_name(n: Seq<char>) -> bool {
    0 < n.len() <= 65535 && forall|i: int| 0 <= i < n.len() ==> is_name_char(#[trigger] n[i])
}

/// Whether `c` may stand in a header value: a tab, or anything from the
/// space on but the delete character.
pub open spec fn is_value_char(c: char) -> bool {
    c == '\t' || (' ' <= c && c != '\u{7f}')
}

/// Whether `v` can be a header value.
pub open spec fn is_header_value(v: Seq<char>) -> bool {
    forall|i: int| 0 <= i < v.len() ==> is_value_char(#[trigger] v[i])
}

/// `hyper::Method::from_bytes` on the bytes of `m`: whether it accepts
/// them. It accepts a non-empty run of the characters of its method table
/// and nothing else.
#[verifier::external_body]
pub(crate) fn accepts_method(m: &str) -> (b: bool)
    ensures
        b == is_method(m@),
{
    hyper::Method::from_bytes(m.as_bytes()).is_ok()
}

/// `hyper::header::HeaderName::from_bytes` on the bytes of `n`: whether it
/// accepts them. It accepts between one and 65535 bytes that its table of
/// header characters all maps to a character.
#[verifier::external_body]
pub(crate) fn accepts_header_name(n: &str) -> (b: bool)
    ensures
        b == is_header_name(n@),
{
    hyper::header::HeaderName::from_bytes(n.as_bytes()).is_ok()
}

/// `hyper::header::HeaderValue::from_str` on `v`: whether it accepts it.
/// It refuses a value with a byte below the space other than the tab, or
/// with the delete byte, and accepts every other.
#[verifier::external_body]
pub(crate) fn accepts_header_value(v: &str) -> (b: bool)
    ensures
        b == is_header_value(v@),
{
    hyper::header::HeaderValue::from_str(v).is_ok()
}

/// `hyper::Uri` parsed from `url`, taken apart by its accessors
/// `scheme_str`, `authority`, `host` and `path_and_query`. The result is
/// whatever the HTTP library makes of `url`; it depends on `url` alone.
#[verifier::external_body]
pub(crate) fn split_uri(url: &str) -> (r: Option<UriParts>)
    ensures
        match r {
            Some(p) => uri_parts(url@) == Some(p@),
            None => uri_parts(url@).is_none(),
        },
{
    match url.parse::<hyper::Uri>() {
        Ok(u) => Some(
            UriParts {
                scheme: u.scheme_str().map(|s| s.to_string()),
                authority: u.authority().map(|a| a.as_str().to_string()),
                host: u.host().map(|h| h.to_string()),
                path_and_query: u.path_and_query().map(|p| p.as_str().to_string()),
            },
        ),
        Err(_) => None,
    }
}

/// `hyper::Uri::builder` given a scheme, an authority and a path with its
/// query, built and written out as a string. The result is whatever the
/// HTTP library makes of the three; it depends on them alone.
#[verifier::external_body]
pub(crate) fn join_uri(scheme: &str, authority: &str, path: &str) -> (r: Option<String>)
    ensures
        match r {
            Some(u) => uri_joined(scheme@, authority@, path@) == Some(u@),
            None => uri_joined(scheme@, authority@, path@).is_none(),
        },
{
    match hyper::Uri::builder().scheme(scheme).authority(authority).path_and_query(path).build() {
        Ok(u) => Some(u.to_string()),
        Err(_) => None,
    }
}

} // verus!
