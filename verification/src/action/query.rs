//! The query parameters of the endpoint in use.

use vstd::prelude::*;
use vstd::string::StringExecFns;
use crate::action::header::text_of;
use crate::cli::EndpointQueryCommands;
use crate::ctx::{endpoint_in_use, with_endpoint, Ctx, CtxView, Output, QuartzExitCode};
use crate::endpoint::{all_pairs, query_text, set_pairs, EndpointPatch, EndpointView};
use crate::error::QuartzError;
use crate::pairs::{has_key, listing, value_of, without, Entries};

verus! {

/// What `get` answers in the session `c`.
pub open spec fn query_value(c: CtxView, key: Seq<char>) -> Result<Seq<char>, QuartzError> {
    match endpoint_in_use(c) {
        Some(e) => match value_of(e.query, key) {
            Some(v) => Ok(v),
            None => Err(QuartzError::NotFound),
        },
        None => Err(QuartzError::NotFound),
    }
}

/// The session after `set`, and what `set` answers.
pub open spec fn query_set(c: CtxView, inputs: Seq<Seq<char>>) -> (CtxView, Result<(), QuartzError>) {
    match endpoint_in_use(c) {
        Some(e) => if all_pairs(inputs) {
            (with_endpoint(c, EndpointView { query: set_pairs(e.query, inputs), ..e }), Ok(()))
        } else {
            (c, Err(QuartzError::MalformedInput))
        },
        None => (c, Err(QuartzError::NotFound)),
    }
}

/// What removing parameters one after the other comes to.
pub struct Removal {
    /// The parameters that are left.
    pub query: Entries,
    /// A line for each parameter that was removed.
    pub stdout: Seq<char>,
    /// A line for each key that was no parameter.
    pub stderr: Seq<char>,
    /// Whether every key was a parameter.
    pub complete: bool,
}

/// What removing the parameters `keys` from `q`, one after the other,
/// comes to.
pub open spec fn removal(q: Entries, keys: Seq<Seq<char>>) -> Removal
    decreases keys.len(),
{
    if keys.len() == 0 {
        Removal {
            query: q,
            stdout: Seq::<char>::empty(),
            stderr: Seq::<char>::empty(),
            complete: true,
        }
    } else {
        let before = removal(q, keys.drop_last());
        let k = keys.last();
        if has_key(before.query, k) {
            Removal {
                query: without(before.query, k),
                stdout: before.stdout + "Removed query param: "@ + k + seq!['\n'],
                ..before
            }
        } else {
            Removal {
                stderr: before.stderr + k + ": No such query param"@ + seq!['\n'],
                complete: false,
                ..before
            }
        }
    }
}

/// The code with which a removal ends.
pub open spec fn code_of(complete: bool) -> QuartzExitCode {
    if complete {
        QuartzExitCode::Success
    } else {
        QuartzExitCode::Error
    }
}

/// What `ls` answers in the session `c`.
pub open spec fn query_listed(c: CtxView) -> Result<Seq<char>, QuartzError> {
    match endpoint_in_use(c) {
        Some(e) => Ok(listing(e.query, seq!['='])),
        None => Err(QuartzError::NotFound),
    }
}

/// What `print` answers in the session `c`.
pub open spec fn query_printed(c: CtxView) -> Result<Seq<char>, QuartzError> {
    match endpoint_in_use(c) {
        Some(e) => Ok(query_text(e.query)),
        None => Err(QuartzError::NotFound),
    }
}

/// Whether the command said `text` on the standard output, nothing on the
/// standard error, and ended well.
pub open spec fn says(o: Output, text: Seq<char>) -> bool {
    o.stdout@ == text && o.stderr@.len() == 0 && o.code == QuartzExitCode::Success
}

/// Whether the command answered what it was expected to: the text, said
/// as by `says`, or the error.
pub open spec fn answers(r: Result<Output, QuartzError>, expected: Result<Seq<char>, QuartzError>) -> bool {
    match (r, expected) {
        (Ok(o), Ok(text)) => says(o, text),
        (Err(e), Err(f)) => e == f,
        _ => false,
    }
}

/// Whether the output says what the removal came to.
pub open spec fn reports(o: Output, r: Removal) -> bool {
    o.stdout@ == r.stdout && o.stderr@ == r.stderr && o.code == code_of(r.complete)
}

/// Carries out a command on the query parameters of the endpoint in use
/// and gives what is to be printed and how the command ended.
pub fn cmd(ctx: &mut Ctx, command: EndpointQueryCommands) -> (r: Result<Output, QuartzError>)
    ensures
        match command {
            EndpointQueryCommands::Get { key } => final(ctx)@ == old(ctx)@ && match key {
                Some(k) => answers(r, query_value(old(ctx)@, k@)),
                None => answers(r, query_printed(old(ctx)@)),
            },
            EndpointQueryCommands::Put { query } => final(ctx)@ == query_set(
                old(ctx)@,
                query.deep_view(),
            ).0 && answers(r, crate::action::env::silent(query_set(old(ctx)@, query.deep_view()).1)),
            EndpointQueryCommands::Remove { key } => match endpoint_in_use(old(ctx)@) {
                Some(e) => final(ctx)@ == with_endpoint(
                    old(ctx)@,
                    EndpointView { query: removal(e.query, seq![key@]).query, ..e },
                ) && match r {
                    Ok(o) => reports(o, removal(e.query, seq![key@])),
                    Err(_) => false,
                },
                None => final(ctx)@ == old(ctx)@ && match r {
                    Ok(_) => false,
                    Err(e) => e == QuartzError::NotFound,
                },
            },
            EndpointQueryCommands::List => final(ctx)@ == old(ctx)@ && answers(
                r,
                query_listed(old(ctx)@),
            ),
        },
{
    match command {
        EndpointQueryCommands::Get { key } => match key {
            Some(k) => said(get(ctx, k)),
            None => said(print(ctx)),
        },
        EndpointQueryCommands::Put { query } => match set(ctx, query) {
            Ok(_) => said(Ok(String::new())),
            Err(e) => Err(e),
        },
        EndpointQueryCommands::Remove { key } => {
            let mut keys: Vec<String> = Vec::new();
            keys.push(key);
            assert(keys.deep_view() =~= seq![key@]);
            rm(ctx, keys)
        },
        EndpointQueryCommands::List => said(ls(ctx)),
    }
}

fn said(r: Result<String, QuartzError>) -> (out: Result<Output, QuartzError>)
    ensures
        answers(out, text_of(r)),
{
    match r {
        Ok(stdout) => Ok(Output { stdout, stderr: String::new(), code: QuartzExitCode::Success }),
        Err(e) => Err(e),
    }
}

/// The value of the parameter `key` of the endpoint in use. It is not
/// found where no endpoint is in use or the endpoint has no such
/// parameter.
pub fn get(ctx: &Ctx, key: String) -> (r: Result<String, QuartzError>)
    ensures
        text_of(r) == query_value(ctx@, key@),
{
    match ctx.require_endpoint() {
        Ok((_, endpoint)) => match endpoint.query.get(key.as_str()) {
            Some(v) => Ok(v.clone()),
            None => Err(QuartzError::NotFound),
        },
        Err(e) => Err(e),
    }
}

/// Sets each parameter given as `<key>=<value>` on the endpoint in use. An
/// input of another form is refused, and then nothing is changed.
pub fn set(ctx: &mut Ctx, queries: Vec<String>) -> (r: Result<(), QuartzError>)
    ensures
        final(ctx)@ == query_set(old(ctx)@, queries.deep_view()).0,
        r == query_set(old(ctx)@, queries.deep_view()).1,
{
    match ctx.require_endpoint() {
        Ok((handle, endpoint)) => {
            let mut endpoint = endpoint;
            let patch = EndpointPatch {
                url: None,
                method: None,
                query: queries,
                headers: Vec::new(),
            };
            proof {
                assert(patch.headers.deep_view() =~= Seq::<Seq<char>>::empty());
            }
            match endpoint.update(&patch) {
                Ok(_) => {
                    let _ = ctx.endpoints.update(&handle, endpoint);
                    Ok(())
                },
                Err(e) => Err(e),
            }
        },
        Err(e) => Err(e),
    }
}

/// Removes each of the parameters from the endpoint in use. A key that is
/// no parameter is reported and makes the command end in an error; the
/// others are removed all the same.
pub fn rm(ctx: &mut Ctx, keys: Vec<String>) -> (r: Result<Output, QuartzError>)
    ensures
        match endpoint_in_use(old(ctx)@) {
            Some(e) => final(ctx)@ == with_endpoint(
                old(ctx)@,
                EndpointView { query: removal(e.query, keys.deep_view()).query, ..e },
            ) && match r {
                Ok(o) => reports(o, removal(e.query, keys.deep_view())),
                Err(_) => false,
            },
            None => final(ctx)@ == old(ctx)@ && match r {
                Ok(_) => false,
                Err(e) => e == QuartzError::NotFound,
            },
        },
{
    match ctx.require_endpoint() {
        Ok((handle, endpoint)) => {
            let mut endpoint = endpoint;
            let mut stdout = String::new();
            let mut stderr = String::new();
            let mut code = QuartzExitCode::Success;
            let mut i: usize = 0;
            let ghost all = keys.deep_view();
            let ghost start = endpoint@;
            proof {
                reveal_strlit("\n");
                assert("\n"@ =~= seq!['\n']);
                assert(all.take(0) == Seq::<Seq<char>>::empty());
            }
            while i < keys.len()
                invariant
                    i <= keys.len(),
                    all == keys.deep_view(),
                    "\n"@ == seq!['\n'],
                    endpoint@ == (EndpointView {
                        query: removal(start.query, all.take(i as int)).query,
                        ..start
                    }),
                    stdout@ == removal(start.query, all.take(i as int)).stdout,
                    stderr@ == removal(start.query, all.take(i as int)).stderr,
                    code == code_of(removal(start.query, all.take(i as int)).complete),
                decreases keys.len() - i,
            {
                proof {
                    let t = all.take(i + 1);
                    assert(t.drop_last() == all.take(i as int));
                    assert(t.last() == keys[i as int]@);
                }
                let k = keys[i].as_str();
                if endpoint.query.contains_key(k) {
                    endpoint.query.remove(k);
                    stdout.append("Removed query param: ");
                    stdout.append(k);
                    stdout.append("\n");
                } else {
                    code = QuartzExitCode::Error;
                    stderr.append(k);
                    stderr.append(": No such query param");
                    stderr.append("\n");
                }
                i += 1;
            }
            assert(all.take(all.len() as int) == all);
            let _ = ctx.endpoints.update(&handle, endpoint);
            Ok(Output { stdout, stderr, code })
        },
        Err(e) => Err(e),
    }
}

/// The parameters of the endpoint in use, one a line.
pub fn ls(ctx: &Ctx) -> (r: Result<String, QuartzError>)
    ensures
        text_of(r) == query_listed(ctx@),
{
    proof {
        reveal_strlit("=");
        assert("="@ =~= seq!['=']);
    }
    match ctx.require_endpoint() {
        Ok((_, endpoint)) => Ok(endpoint.query.render("=")),
        Err(e) => Err(e),
    }
}

/// The parameters of the endpoint in use as they stand in the URL.
pub fn print(ctx: &Ctx) -> (r: Result<String, QuartzError>)
    ensures
        text_of(r) == query_printed(ctx@),
{
    match ctx.require_endpoint() {
        Ok((_, endpoint)) => Ok(endpoint.query_string()),
        Err(e) => Err(e),
    }
}

} // verus!
