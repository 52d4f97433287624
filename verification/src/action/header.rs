//! The headers of the endpoint in use.

use vstd::prelude::*;
use crate::cli::HeaderCmd;
use crate::ctx::{endpoint_in_use, with_endpoint, Ctx, CtxView};
use crate::endpoint::{all_headers, set_headers, EndpointPatch, EndpointView};
use crate::error::QuartzError;
use crate::pairs::{listing, value_of, without, Entries};
use crate::text;

verus! {

/// `e` without the entries for the lower-case form of each key, in order.
pub open spec fn without_headers(e: Entries, keys: Seq<Seq<char>>) -> Entries
    decreases keys.len(),
{
    if keys.len() == 0 {
        e
    } else {
        without(without_headers(e, keys.drop_last()), text::lowercase(keys.last()))
    }
}

/// What `get` answers in the session `c`.
pub open spec fn header_value(c: CtxView, key: Seq<char>) -> Result<Seq<char>, QuartzError> {
    match endpoint_in_use(c) {
        Some(e) => match value_of(e.headers, text::lowercase(key)) {
            Some(v) => Ok(v),
            None => Err(QuartzError::NotFound),
        },
        None => Err(QuartzError::NotFound),
    }
}

/// The session after `set`, and what `set` answers.
pub open spec fn headers_set(c: CtxView, inputs: Seq<Seq<char>>) -> (CtxView, Result<(), QuartzError>) {
    match endpoint_in_use(c) {
        Some(e) => if all_headers(inputs) {
            (
                with_endpoint(c, EndpointView { headers: set_headers(e.headers, inputs), ..e }),
                Ok(()),
            )
        } else {
            (c, Err(QuartzError::MalformedInput))
        },
        None => (c, Err(QuartzError::NotFound)),
    }
}

/// The session after `rm`, and what `rm` answers.
pub open spec fn headers_removed(c: CtxView, keys: Seq<Seq<char>>) -> (
    CtxView,
    Result<(), QuartzError>,
) {
    match endpoint_in_use(c) {
        Some(e) => (
            with_endpoint(c, EndpointView { headers: without_headers(e.headers, keys), ..e }),
            Ok(()),
        ),
        None => (c, Err(QuartzError::NotFound)),
    }
}

/// What `ls` answers in the session `c`.
pub open spec fn headers_listed(c: CtxView) -> Result<Seq<char>, QuartzError> {
    match endpoint_in_use(c) {
        Some(e) => Ok(listing(e.headers, seq![':', ' '])),
        None => Err(QuartzError::NotFound),
    }
}

/// The text of an answer.
pub open spec fn text_of(r: Result<String, QuartzError>) -> Result<Seq<char>, QuartzError> {
    match r {
        Ok(s) => Ok(s@),
        Err(e) => Err(e),
    }
}

/// Carries out a command on the headers of the endpoint in use and gives
/// what is to be printed.
pub fn cmd(ctx: &mut Ctx, command: HeaderCmd) -> (r: Result<String, QuartzError>)
    ensures
        match command {
            HeaderCmd::Get { key } => final(ctx)@ == old(ctx)@ && text_of(r) == header_value(
                old(ctx)@,
                key@,
            ),
            HeaderCmd::Put { header } => final(ctx)@ == headers_set(
                old(ctx)@,
                header.deep_view(),
            ).0 && text_of(r) == match headers_set(old(ctx)@, header.deep_view()).1 {
                Ok(_) => Ok(Seq::<char>::empty()),
                Err(e) => Err(e),
            },
            HeaderCmd::Rm { key } => final(ctx)@ == headers_removed(old(ctx)@, key.deep_view()).0
                && text_of(r) == match headers_removed(old(ctx)@, key.deep_view()).1 {
                Ok(_) => Ok(Seq::<char>::empty()),
                Err(e) => Err(e),
            },
            HeaderCmd::Ls => final(ctx)@ == old(ctx)@ && text_of(r) == headers_listed(old(ctx)@),
        },
{
    match command {
        HeaderCmd::Get { key } => get(ctx, key),
        HeaderCmd::Put { header } => match set(ctx, header) {
            Ok(_) => Ok(String::new()),
            Err(e) => Err(e),
        },
        HeaderCmd::Rm { key } => match rm(ctx, key) {
            Ok(_) => Ok(String::new()),
            Err(e) => Err(e),
        },
        HeaderCmd::Ls => ls(ctx),
    }
}

/// The value of the header `key` of the endpoint in use. It is not found
/// where no endpoint is in use or the endpoint has no such header.
pub fn get(ctx: &Ctx, key: String) -> (r: Result<String, QuartzError>)
    ensures
        text_of(r) == header_value(ctx@, key@),
{
    match ctx.require_endpoint() {
        Ok((_, endpoint)) => match endpoint.headers.get(key.as_str()) {
            Some(v) => Ok(v.clone()),
            None => Err(QuartzError::NotFound),
        },
        Err(e) => Err(e),
    }
}

/// Sets each header given as `<key>: <value>` on the endpoint in use. An
/// input of another form is refused, and then nothing is changed.
pub fn set(ctx: &mut Ctx, headers: Vec<String>) -> (r: Result<(), QuartzError>)
    ensures
        final(ctx)@ == headers_set(old(ctx)@, headers.deep_view()).0,
        r == headers_set(old(ctx)@, headers.deep_view()).1,
{
    match ctx.require_endpoint() {
        Ok((handle, endpoint)) => {
            let mut endpoint = endpoint;
            let patch = EndpointPatch { url: None, method: None, query: Vec::new(), headers };
            proof {
                assert(patch.query.deep_view() =~= Seq::<Seq<char>>::empty());
            }
            match endpoint.update(&patch) {
                Ok(_) => {
                    let _ = ctx.endpoints.update(&handle, endpoint);
                    Ok(())
                },
                Err(e) => Err(e),
            }
        },
        Err(e) => Err(e),
    }
}

/// Removes each of the headers from the endpoint in use.
pub fn rm(ctx: &mut Ctx, keys: Vec<String>) -> (r: Result<(), QuartzError>)
    ensures
        final(ctx)@ == headers_removed(old(ctx)@, keys.deep_view()).0,
        r == headers_removed(old(ctx)@, keys.deep_view()).1,
{
    match ctx.require_endpoint() {
        Ok((handle, endpoint)) => {
            let mut endpoint = endpoint;
            let mut i: usize = 0;
            let ghost all = keys.deep_view();
            let ghost start = endpoint@;
            assert(all.take(0) == Seq::<Seq<char>>::empty());
            while i < keys.len()
                invariant
                    i <= keys.len(),
                    all == keys.deep_view(),
                    endpoint@ == (EndpointView {
                        headers: without_headers(start.headers, all.take(i as int)),
                        ..start
                    }),
                decreases keys.len() - i,
            {
                proof {
                    let t = all.take(i + 1);
                    assert(t.drop_last() == all.take(i as int));
                    assert(t.last() == keys[i as int]@);
                }
                endpoint.headers.remove(keys[i].as_str());
                i += 1;
            }
            assert(all.take(all.len() as int) == all);
            let _ = ctx.endpoints.update(&handle, endpoint);
            Ok(())
        },
        Err(e) => Err(e),
    }
}

/// The headers of the endpoint in use, one a line.
pub fn ls(ctx: &Ctx) -> (r: Result<String, QuartzError>)
    ensures
        text_of(r) == headers_listed(ctx@),
{
    match ctx.require_endpoint() {
        Ok((_, endpoint)) => Ok(endpoint.headers.render()),
        Err(e) => Err(e),
    }
}

} // verus!
