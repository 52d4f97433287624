//! The handles: creating, choosing, listing and removing them, and showing
//! the endpoint in use.

use vstd::prelude::*;
use crate::action::header::text_of;
use crate::cli::{EndpointShowCommands, StatusCommands};
use crate::ctx::{endpoint_in_use, handle_in_use, with_endpoint, Ctx, CtxView};
use crate::endpoint::{
    all_headers,
    all_pairs,
    blank,
    color_of,
    patched,
    query_text,
    Color,
    Endpoint,
    EndpointPatch,
    EndpointView,
};
use crate::error::QuartzError;
use crate::handle::{path_of, EndpointHandle, Path};
use crate::pairs::{listing, value_of};
use crate::state::{scope_in_use, with_field, StateField};
use crate::text;
use crate::tree::{exists_in, without_subtree, written};
use crate::wire::opt_view;

verus! {

/// The session after an endpoint was created at `handle`, and whether it
/// could be. The handle must name a node, the node must be new and the
/// patch must be well formed. The endpoint sets what the patch gives and
/// nothing else. With `switch`, the handle is put in use.
pub open spec fn created(
    c: CtxView,
    handle: Seq<char>,
    url: Option<Seq<char>>,
    method: Option<Seq<char>>,
    query: Seq<Seq<char>>,
    headers: Seq<Seq<char>>,
    switch: bool,
) -> (CtxView, Result<(), QuartzError>) {
    let p = path_of(handle);
    if p.len() == 0 || !(all_pairs(query) && all_headers(headers)) {
        (c, Err(QuartzError::MalformedInput))
    } else if exists_in(c.endpoints, p) {
        (c, Err(QuartzError::AlreadyExists))
    } else {
        (
            CtxView {
                endpoints: written(c.endpoints, p, patched(blank(), url, method, query, headers)),
                state: if switch {
                    with_field(c.state, StateField::Endpoint, Some(text::join(p, seq!['/'])))
                } else {
                    c.state
                },
                ..c
            },
            Ok(()),
        )
    }
}

/// Creates an endpoint at a new handle.
pub fn create(ctx: &mut Ctx, handle: &str, patch: &EndpointPatch, switch: bool) -> (r: Result<
    (),
    QuartzError,
>)
    ensures
        final(ctx)@ == created(
            old(ctx)@,
            handle@,
            opt_view(patch.url),
            opt_view(patch.method),
            patch.query.deep_view(),
            patch.headers.deep_view(),
            switch,
        ).0,
        r == created(
            old(ctx)@,
            handle@,
            opt_view(patch.url),
            opt_view(patch.method),
            patch.query.deep_view(),
            patch.headers.deep_view(),
            switch,
        ).1,
{
    let at = EndpointHandle::from_handle(handle);
    if at.is_root() {
        return Err(QuartzError::MalformedInput);
    }
    let mut endpoint = Endpoint::blank();
    match endpoint.update(patch) {
        Ok(_) => {},
        Err(e) => {
            return Err(e);
        },
    }
    if ctx.endpoints.contains(&at) {
        return Err(QuartzError::AlreadyExists);
    }
    let _ = ctx.endpoints.write(&at, endpoint);
    if switch {
        let name = at.handle();
        ctx.state.set(StateField::Endpoint, name.as_str());
    }
    Ok(())
}

/// The session after `handle` was put in use, where one is given, and the
/// endpoint then in use was patched; and whether that could be done. A
/// handle that is given must name a node that exists. The node in use must
/// store an endpoint and the patch must be well formed.
pub open spec fn switched(
    c: CtxView,
    handle: Option<Seq<char>>,
    url: Option<Seq<char>>,
    method: Option<Seq<char>>,
    query: Seq<Seq<char>>,
    headers: Seq<Seq<char>>,
) -> (CtxView, Result<(), QuartzError>) {
    let chosen = match handle {
        Some(h) => if exists_in(c.endpoints, path_of(h)) {
            Some(
                CtxView {
                    state: with_field(
                        c.state,
                        StateField::Endpoint,
                        Some(text::join(path_of(h), seq!['/'])),
                    ),
                    ..c
                },
            )
        } else {
            None
        },
        None => Some(c),
    };
    match chosen {
        Some(d) => match endpoint_in_use(d) {
            Some(e) => if all_pairs(query) && all_headers(headers) {
                (with_endpoint(d, patched(e, url, method, query, headers)), Ok(()))
            } else {
                (c, Err(QuartzError::MalformedInput))
            },
            None => (c, Err(QuartzError::NotFound)),
        },
        None => (c, Err(QuartzError::NotFound)),
    }
}

/// Puts a handle in use, where one is given, and patches the endpoint in
/// use. Where this cannot be done, nothing is changed.
pub fn switch(ctx: &mut Ctx, handle: Option<&str>, patch: &EndpointPatch) -> (r: Result<
    (),
    QuartzError,
>)
    ensures
        final(ctx)@ == switched(
            old(ctx)@,
            match handle {
                Some(h) => Some(h@),
                None => None,
            },
            opt_view(patch.url),
            opt_view(patch.method),
            patch.query.deep_view(),
            patch.headers.deep_view(),
        ).0,
        r == switched(
            old(ctx)@,
            match handle {
                Some(h) => Some(h@),
                None => None,
            },
            opt_view(patch.url),
            opt_view(patch.method),
            patch.query.deep_view(),
            patch.headers.deep_view(),
        ).1,
{
    let (at, name) = match handle {
        Some(h) => {
            let at = EndpointHandle::from_handle(h);
            if !ctx.endpoints.contains(&at) {
                return Err(QuartzError::NotFound);
            }
            proof {
                crate::handle::lemma_path_of_joined(h@);
            }
            let name = at.handle();
            (at, Some(name))
        },
        None => match ctx.require_handle() {
            Ok(at) => (at, None),
            Err(e) => {
                return Err(e);
            },
        },
    };
    let mut endpoint = match ctx.endpoints.endpoint(&at) {
        Some(e) => e.clone(),
        None => {
            return Err(QuartzError::NotFound);
        },
    };
    match endpoint.update(patch) {
        Ok(_) => {},
        Err(e) => {
            return Err(e);
        },
    }
    match name {
        Some(n) => {
            ctx.state.set(StateField::Endpoint, n.as_str());
        },
        None => {},
    }
    let _ = ctx.endpoints.update(&at, endpoint);
    Ok(())
}

/// The session after the node `handle` was removed with all the nodes
/// below it, and whether it could be: the node must exist.
pub open spec fn removed(c: CtxView, handle: Seq<char>) -> (CtxView, Result<(), QuartzError>) {
    if exists_in(c.endpoints, path_of(handle)) {
        (CtxView { endpoints: without_subtree(c.endpoints, path_of(handle)), ..c }, Ok(()))
    } else {
        (c, Err(QuartzError::NotFound))
    }
}

/// Removes a node and all the nodes below it.
pub fn rm(ctx: &mut Ctx, handle: &str) -> (r: Result<(), QuartzError>)
    ensures
        final(ctx)@ == removed(old(ctx)@, handle@).0,
        r == removed(old(ctx)@, handle@).1,
{
    let at = EndpointHandle::from_handle(handle);
    match ctx.endpoints.remove(&at) {
        Ok(_) => Ok(()),
        Err(e) => Err(e),
    }
}

/// A line of the list of handles.
pub struct Line {
    /// Whether the node is the one in use.
    pub current: bool,
    /// The method of the endpoint at the node; nothing for a node that
    /// stores no endpoint.
    pub method: Option<String>,
    /// The colour in which the method is shown.
    pub color: Color,
    /// The handle of the node.
    pub handle: String,
    /// Whether the node has nodes below it that the list leaves out.
    pub more: bool,
}

/// Whether the line tells of the node it names what there is to tell, in
/// the session `c` and for a list down to `max_depth`.
pub open spec fn tells(line: Line, c: CtxView, max_depth: Option<usize>) -> bool {
    let p = path_of(line.handle@);
    &&& line.handle@ == text::join(p, seq!['/'])
    &&& crate::tree::listable(c.endpoints, Path::empty(), max_depth, p)
    &&& line.current == (handle_in_use(c) == Some(p))
    &&& opt_view(line.method) == crate::tree::method_at(c.endpoints, p)
    &&& line.color == match line.method {
        Some(m) => color_of(m@),
        None => Color::White,
    }
    &&& line.more == crate::tree::cut_short(c.endpoints, Path::empty(), max_depth, p)
}

/// The list of the handles below the root, down to the depth asked for:
/// a line for each node, each node before the nodes below it, the nodes
/// under one node by their names.
pub fn ls(ctx: &Ctx, max_depth: Option<usize>) -> (out: Vec<Line>)
    ensures
        forall|i: int| 0 <= i < out@.len() ==> tells(#[trigger] out@[i], ctx@, max_depth),
        forall|p: Path|
            crate::tree::listable(ctx@.endpoints, Path::empty(), max_depth, p) ==> exists|i: int|
                0 <= i < out@.len() && path_of((#[trigger] out@[i]).handle@) == p,
        forall|i: int, j: int|
            0 <= i < j < out@.len() ==> crate::order::path_lt(
                path_of((#[trigger] out@[i]).handle@),
                path_of((#[trigger] out@[j]).handle@),
            ),
{
    let root = EndpointHandle::root();
    let nodes = ctx.endpoints.children(&root, max_depth);
    let current = match ctx.require_handle() {
        Ok(h) => Some(h),
        Err(_) => None,
    };
    let mut out: Vec<Line> = Vec::new();
    let mut i: usize = 0;
    while i < nodes.len()
        invariant
            i <= nodes.len(),
            out@.len() == i,
            root@ == Path::empty(),
            match current {
                Some(h) => handle_in_use(ctx@) == Some(h@),
                None => handle_in_use(ctx@).is_none(),
            },
            forall|k: int|
                0 <= k < nodes@.len() ==> crate::tree::listable(
                    ctx@.endpoints,
                    root@,
                    max_depth,
                    (#[trigger] nodes@[k]).handle@,
                ) && opt_view(nodes@[k].method) == crate::tree::method_at(
                    ctx@.endpoints,
                    nodes@[k].handle@,
                ) && nodes@[k].more == crate::tree::cut_short(
                    ctx@.endpoints,
                    root@,
                    max_depth,
                    nodes@[k].handle@,
                ),
            forall|k: int|
                0 <= k < i ==> path_of((#[trigger] out@[k]).handle@) == nodes@[k].handle@ && tells(
                    out@[k],
                    ctx@,
                    max_depth,
                ),
        decreases nodes.len() - i,
    {
        let node = &nodes[i];
        proof {
            use_type_invariant(&node.handle);
            crate::handle::lemma_join_round_trip(node.handle@);
        }
        let line = Line {
            current: match &current {
                Some(h) => h.same_as(&node.handle),
                None => false,
            },
            method: match &node.method {
                Some(m) => Some(m.clone()),
                None => None,
            },
            color: match &node.method {
                Some(m) => crate::endpoint::method_color(m.as_str()),
                None => Color::White,
            },
            handle: node.handle.handle(),
            more: node.more,
        };
        out.push(line);
        i += 1;
    }
    proof {
        assert forall|p: Path|
            crate::tree::listable(ctx@.endpoints, Path::empty(), max_depth, p) implies exists|
            i: int,
        |
            0 <= i < out@.len() && path_of((#[trigger] out@[i]).handle@) == p by {
            let k = choose|k: int| 0 <= k < nodes@.len() && (#[trigger] nodes@[k]).handle@ == p;
            assert(path_of(out@[k].handle@) == p);
        }
        assert forall|i: int, j: int| 0 <= i < j < out@.len() implies crate::order::path_lt(
            path_of((#[trigger] out@[i]).handle@),
            path_of((#[trigger] out@[j]).handle@),
        ) by {
            assert(crate::order::path_lt(nodes@[i].handle@, nodes@[j].handle@));
        }
    }
    out
}

/// What `show` answers in the session `c`.
pub open spec fn shown(c: CtxView, command: EndpointShowCommands) -> Result<Seq<char>, QuartzError> {
    match endpoint_in_use(c) {
        Some(e) => match command {
            EndpointShowCommands::Url => Ok(e.url),
            EndpointShowCommands::Method => Ok(e.method),
            EndpointShowCommands::Headers { key } => match key {
                Some(k) => match value_of(e.headers, text::lowercase(k@)) {
                    Some(v) => Ok(v),
                    None => Err(QuartzError::NotFound),
                },
                None => Ok(listing(e.headers, seq![':', ' '])),
            },
            EndpointShowCommands::Query { key } => match key {
                Some(k) => match value_of(e.query, k@) {
                    Some(v) => Ok(v),
                    None => Err(QuartzError::NotFound),
                },
                None => Ok(query_text(e.query)),
            },
            EndpointShowCommands::Body => Ok(e.body),
        },
        None => Err(QuartzError::NotFound),
    }
}

/// A part of the endpoint in use, as text.
pub fn show(ctx: &Ctx, command: EndpointShowCommands) -> (r: Result<String, QuartzError>)
    ensures
        text_of(r) == shown(ctx@, command),
{
    let endpoint = match ctx.require_endpoint() {
        Ok((_, e)) => e,
        Err(e) => {
            return Err(e);
        },
    };
    match command {
        EndpointShowCommands::Url => Ok(endpoint.url),
        EndpointShowCommands::Method => Ok(endpoint.method),
        EndpointShowCommands::Headers { key } => match key {
            Some(k) => match endpoint.headers.get(k.as_str()) {
                Some(v) => Ok(v.clone()),
                None => Err(QuartzError::NotFound),
            },
            None => Ok(endpoint.headers.render()),
        },
        EndpointShowCommands::Query { key } => match key {
            Some(k) => match endpoint.query.get(k.as_str()) {
                Some(v) => Ok(v.clone()),
                None => Err(QuartzError::NotFound),
            },
            None => Ok(endpoint.query_string()),
        },
        EndpointShowCommands::Body => Ok(endpoint.body),
    }
}

/// What `status` answers in the session `c`: the handle in use, or
/// nothing where none is; the context in use.
pub open spec fn status_of(c: CtxView, command: StatusCommands) -> Seq<char> {
    match command {
        StatusCommands::Endpoint => match c.state.endpoint {
            Some(h) => h,
            None => Seq::<char>::empty(),
        },
        StatusCommands::Context => scope_in_use(c.state, StateField::Context),
    }
}

/// The handle or the context in use.
pub fn status(ctx: &Ctx, command: StatusCommands) -> (out: String)
    ensures
        out@ == status_of(ctx@, command),
{
    match command {
        StatusCommands::Endpoint => match ctx.state.get(StateField::Endpoint) {
            Some(h) => h.clone(),
            None => String::new(),
        },
        StatusCommands::Context => ctx.state.scope(StateField::Context),
    }
}

/// The session after the body of the endpoint in use was replaced, where a
/// new one is given; and the body that the endpoint then has.
pub open spec fn with_body(c: CtxView, body: Option<Seq<char>>) -> (
    CtxView,
    Result<Seq<char>, QuartzError>,
) {
    match endpoint_in_use(c) {
        Some(e) => match body {
            Some(b) => (with_endpoint(c, EndpointView { body: b, ..e }), Ok(b)),
            None => (c, Ok(e.body)),
        },
        None => (c, Err(QuartzError::NotFound)),
    }
}

/// Replaces the body of the endpoint in use, where a new one is given, and
/// gives the body that the endpoint then has.
pub fn body(ctx: &mut Ctx, text: Option<String>) -> (r: Result<String, QuartzError>)
    ensures
        final(ctx)@ == with_body(old(ctx)@, opt_view(text)).0,
        text_of(r) == with_body(old(ctx)@, opt_view(text)).1,
{
    let (handle, endpoint) = match ctx.require_endpoint() {
        Ok(found) => found,
        Err(e) => {
            return Err(e);
        },
    };
    match text {
        Some(b) => {
            let mut endpoint = endpoint;
            endpoint.body = b.clone();
            let _ = ctx.endpoints.update(&handle, endpoint);
            Ok(b)
        },
        None => Ok(endpoint.body),
    }
}

} // verus!
