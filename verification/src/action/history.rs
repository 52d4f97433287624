//! What was sent: the last request, and the list of all of them.

use vstd::prelude::*;
use crate::cli::{LastCommands, LastRequestCommands, LastResponseCommands};
use crate::ctx::Ctx;
use crate::error::QuartzError;
use crate::history::{field_text, Log, RequestHistoryEntry};

verus! {

/// The key of the field that a command asks for.
pub open spec fn key_of(command: LastCommands) -> Seq<char> {
    match command {
        LastCommands::Handle => "handle"@,
        LastCommands::Date => "date"@,
        LastCommands::Request { command } => match command {
            LastRequestCommands::Url => "request.url"@,
            LastRequestCommands::Query => "request.query"@,
            LastRequestCommands::Method => "request.method"@,
            LastRequestCommands::Headers => "request.headers"@,
            LastRequestCommands::Body => "request.body"@,
            LastRequestCommands::Context => "request.context"@,
        },
        LastCommands::Response { command } => match command {
            LastResponseCommands::Status => "response.status"@,
            LastResponseCommands::Headers => "response.headers"@,
            LastResponseCommands::Body => "response.body"@,
            LastResponseCommands::Size => "response.size"@,
        },
    }
}

/// The key of the field that a command asks for.
pub fn field_key(command: &LastCommands) -> (key: &'static str)
    ensures
        key@ == key_of(*command),
{
    match command {
        LastCommands::Handle => "handle",
        LastCommands::Date => "date",
        LastCommands::Request { command } => match command {
            LastRequestCommands::Url => "request.url",
            LastRequestCommands::Query => "request.query",
            LastRequestCommands::Method => "request.method",
            LastRequestCommands::Headers => "request.headers",
            LastRequestCommands::Body => "request.body",
            LastRequestCommands::Context => "request.context",
        },
        LastCommands::Response { command } => match command {
            LastResponseCommands::Status => "response.status",
            LastResponseCommands::Headers => "response.headers",
            LastResponseCommands::Body => "response.body",
            LastResponseCommands::Size => "response.size",
        },
    }
}

/// What `last` answers for a log: the field of its newest entry. There is
/// nothing to answer for an empty log, nor where the entry lacks the part
/// that is asked for.
pub open spec fn last_field(log: Log, command: LastCommands) -> Result<Seq<char>, QuartzError> {
    if log.len() == 0 {
        Err(QuartzError::NotFound)
    } else {
        match field_text(log.last(), key_of(command)) {
            Some(s) => Ok(s),
            None => Err(QuartzError::NotFound),
        }
    }
}

/// A field of the last request or of its response.
pub fn last(ctx: &Ctx, command: LastCommands) -> (r: Result<String, QuartzError>)
    ensures
        crate::action::header::text_of(r) == last_field(ctx@.history, command),
{
    match ctx.history.last() {
        Ok(entry) => entry.field_as_string(field_key(&command)),
        Err(e) => Err(e),
    }
}

/// Whether `r` is what asking an entry for a field gives, where the field
/// comes to `text`: the text, or that the field is not found where it
/// comes to nothing.
pub open spec fn gives(r: Result<String, QuartzError>, text: Option<Seq<char>>) -> bool {
    match r {
        Ok(s) => text == Some(s@),
        Err(e) => e == QuartzError::NotFound && text.is_none(),
    }
}

/// The fields `keys` of an entry, each as text or as the error of a key
/// that names nothing. One key that names nothing does not spoil the
/// others.
pub fn project(entry: &RequestHistoryEntry, keys: &Vec<String>) -> (out: Vec<
    Result<String, QuartzError>,
>)
    ensures
        out@.len() == keys@.len(),
        forall|j: int|
            0 <= j < out@.len() ==> gives(#[trigger] out@[j], field_text(entry@, keys@[j]@)),
{
    let mut out: Vec<Result<String, QuartzError>> = Vec::new();
    let mut j: usize = 0;
    while j < keys.len()
        invariant
            j <= keys.len(),
            out@.len() == j,
            forall|k: int|
                0 <= k < j ==> gives(#[trigger] out@[k], field_text(entry@, keys@[k]@)),
        decreases keys.len() - j,
    {
        out.push(entry.field_as_string(keys[j].as_str()));
        j += 1;
    }
    out
}

/// How many entries a list of at most `max_count` shows of a log.
pub open spec fn shown_count(log: Log, max_count: Option<usize>) -> int {
    match max_count {
        Some(m) => if m < log.len() {
            m as int
        } else {
            log.len() as int
        },
        None => log.len() as int,
    }
}

/// The fields `show` of the entries of the history, from the newest entry
/// on, for at most `max_count` entries.
pub fn history(ctx: &Ctx, max_count: Option<usize>, show: &Vec<String>) -> (out: Vec<
    Vec<Result<String, QuartzError>>,
>)
    ensures
        out@.len() == shown_count(ctx@.history, max_count),
        forall|i: int|
            0 <= i < out@.len() ==> (#[trigger] out@[i])@.len() == show@.len() && forall|j: int|
                0 <= j < show@.len() ==> gives(
                    #[trigger] out@[i]@[j],
                    field_text(ctx@.history.reverse()[i], show@[j]@),
                ),
{
    let entries = ctx.history.iterate();
    let n = match max_count {
        Some(m) => if m < entries.len() {
            m
        } else {
            entries.len()
        },
        None => entries.len(),
    };
    let mut out: Vec<Vec<Result<String, QuartzError>>> = Vec::new();
    let mut i: usize = 0;
    while i < n
        invariant
            i <= n <= entries@.len(),
            entries@.len() == ctx@.history.len(),
            out@.len() == i,
            forall|k: int|
                0 <= k < entries@.len() ==> (#[trigger] entries@[k])@ == ctx@.history.reverse()[k],
            forall|k: int|
                0 <= k < i ==> (#[trigger] out@[k])@.len() == show@.len() && forall|j: int|
                    0 <= j < show@.len() ==> gives(
                        #[trigger] out@[k]@[j],
                        field_text(ctx@.history.reverse()[k], show@[j]@),
                    ),
        decreases n - i,
    {
        let fields = project(entries[i], show);
        out.push(fields);
        i += 1;
    }
    out
}

} // verus!
