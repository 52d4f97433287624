//! The history log: one entry for each request that was carried out, kept
//! by the time at which it was sent.

use std::fmt::Write;
use vstd::prelude::*;
use crate::endpoint::{query_text, Endpoint, EndpointView};
use crate::env::{Context, EnvView};
use crate::error::QuartzError;
use crate::handle::Path;
use crate::headers::Headers;
use crate::pairs::{listing, Entries};
use crate::text;

verus! {

/// The model of a response.
pub struct ResponseView {
    pub status: u16,
    pub headers: Entries,
    pub body: Seq<char>,
    pub size: u64,
}

/// What came back for a request.
pub struct Response {
    pub status: u16,
    pub headers: Headers,
    pub body: String,
    pub size: u64,
}

impl View for Response {
    type V = ResponseView;

    open spec fn view(&self) -> ResponseView {
        ResponseView {
            status: self.status,
            headers: self.headers@,
            body: self.body@,
            size: self.size,
        }
    }
}

impl Clone for Response {
    fn clone(&self) -> (r: Self)
        ensures
            r@ == self@,
    {
        Response {
            status: self.status,
            headers: self.headers.clone(),
            body: self.body.clone(),
            size: self.size,
        }
    }
}

/// The model of an entry.
pub struct EntryView {
    pub path: Path,
    pub endpoint: Option<EndpointView>,
    pub context: Option<EnvView>,
    pub response: Option<ResponseView>,
    pub messages: Seq<Seq<char>>,
    pub time: u64,
    pub duration: u64,
}

/// The record of one request that was carried out.
pub struct RequestHistoryEntry {
    /// The segments of the handle that the request was sent from.
    pub path: Vec<String>,
    /// The request as it was sent.
    pub endpoint: Option<Endpoint>,
    /// The context that the variables were taken from.
    pub context: Option<Context>,
    /// What came back.
    pub response: Option<Response>,
    /// The messages as they went over the wire, in order.
    pub messages: Vec<String>,
    /// When the request was sent: microseconds since the Unix epoch.
    pub time: u64,
    /// How long the answer took, in milliseconds.
    pub duration: u64,
}

impl View for RequestHistoryEntry {
    type V = EntryView;

    open spec fn view(&self) -> EntryView {
        EntryView {
            path: self.path.deep_view(),
            endpoint: match self.endpoint {
                Some(e) => Some(e@),
                None => None,
            },
            context: match self.context {
                Some(c) => Some(c@),
                None => None,
            },
            response: match self.response {
                Some(r) => Some(r@),
                None => None,
            },
            messages: self.messages.deep_view(),
            time: self.time,
            duration: self.duration,
        }
    }
}

/// The entry for the time `time` with nothing else in it.
pub open spec fn empty_entry(time: u64) -> EntryView {
    EntryView {
        path: Path::empty(),
        endpoint: None,
        context: None,
        response: None,
        messages: Seq::<Seq<char>>::empty(),
        time,
        duration: 0,
    }
}

/// The text that the date library writes for the time `micros`,
/// microseconds since the Unix epoch, under the format `format`; nothing
/// where it cannot tell the date or cannot make sense of the format.
pub uninterp spec fn time_text(micros: i64, format: Seq<char>) -> Option<Seq<char>>;

/// `chrono::DateTime::from_timestamp_micros`, then `naive_utc` and
/// `format` with the given format, written out. The date is taken in UTC,
/// so the text depends on the two arguments alone.
#[verifier::external_body]
fn write_time(micros: i64, format: &str) -> (r: Option<String>)
    ensures
        match r {
            Some(s) => time_text(micros, format@) == Some(s@),
            None => time_text(micros, format@).is_none(),
        },
{
    match chrono::DateTime::from_timestamp_micros(micros) {
        Some(at) => {
            let mut out = String::new();
            match write!(out, "{}", at.naive_utc().format(format)) {
                Ok(_) => Some(out),
                Err(_) => None,
            }
        },
        None => None,
    }
}

/// The text of the time of an entry under a format.
pub open spec fn date_text(time: u64, format: Seq<char>) -> Option<Seq<char>> {
    if time <= i64::MAX {
        time_text(time as i64, format)
    } else {
        None
    }
}

/// The format in which a date is written where none is asked for.
pub open spec fn default_date_format() -> Seq<char> {
    "%a %b %d %H:%M:%S %Y"@
}

/// What a field of an entry comes to as text. The keys are `handle`,
/// `time`, `date`, `duration`, `request.url`, `request.method`,
/// `request.headers`, `request.query`, `request.body`, `request.context`,
/// `response.status`, `response.headers`, `response.body` and
/// `response.size`. There is nothing for any other key, nor for a field of
/// a part that the entry does not have.
pub open spec fn field_text(e: EntryView, key: Seq<char>) -> Option<Seq<char>> {
    if key == "handle"@ {
        Some(text::join(e.path, seq!['/']))
    } else if key == "time"@ {
        Some(text::decimal(e.time as nat))
    } else if key == "date"@ {
        date_text(e.time, default_date_format())
    } else if key == "duration"@ {
        Some(text::decimal(e.duration as nat))
    } else if key == "request.context"@ {
        match e.context {
            Some(c) => Some(c.name),
            None => None,
        }
    } else if key == "request.url"@ || key == "request.method"@ || key == "request.headers"@ || key
        == "request.query"@ || key == "request.body"@ {
        match e.endpoint {
            Some(q) => Some(
                if key == "request.url"@ {
                    q.url
                } else if key == "request.method"@ {
                    q.method
                } else if key == "request.headers"@ {
                    listing(q.headers, seq![':', ' '])
                } else if key == "request.query"@ {
                    query_text(q.query)
                } else {
                    q.body
                },
            ),
            None => None,
        }
    } else if key == "response.status"@ || key == "response.headers"@ || key == "response.body"@
        || key == "response.size"@ {
        match e.response {
            Some(r) => Some(
                if key == "response.status"@ {
                    text::decimal(r.status as nat)
                } else if key == "response.headers"@ {
                    listing(r.headers, seq![':', ' '])
                } else if key == "response.body"@ {
                    r.body
                } else {
                    text::decimal(r.size as nat)
                },
            ),
            None => None,
        }
    } else {
        None
    }
}

impl RequestHistoryEntry {
    /// The entry for a request sent at `time`, with nothing else in it yet.
    pub fn new(time: u64) -> (e: Self)
        ensures
            e@ == empty_entry(time),
    {
        let e = RequestHistoryEntry {
            path: Vec::new(),
            endpoint: None,
            context: None,
            response: None,
            messages: Vec::new(),
            time,
            duration: 0,
        };
        assert(e.path.deep_view() =~= Path::empty());
        assert(e.messages.deep_view() =~= Seq::<Seq<char>>::empty());
        e
    }

    /// Sets the handle that the request was sent from.
    pub fn path(&mut self, path: Vec<String>)
        ensures
            final(self)@ == (EntryView { path: path.deep_view(), ..old(self)@ }),
    {
        self.path = path;
    }

    /// Sets the request as it was sent.
    pub fn endpoint(&mut self, endpoint: &Endpoint)
        ensures
            final(self)@ == (EntryView { endpoint: Some(endpoint@), ..old(self)@ }),
    {
        self.endpoint = Some(endpoint.clone());
    }

    /// Sets the context that the variables were taken from.
    pub fn context(&mut self, context: &Context)
        ensures
            final(self)@ == (EntryView { context: Some(context@), ..old(self)@ }),
    {
        self.context = Some(context.clone());
    }

    /// Sets what came back.
    pub fn response(&mut self, response: Response)
        ensures
            final(self)@ == (EntryView { response: Some(response@), ..old(self)@ }),
    {
        self.response = Some(response);
    }

    /// Adds a message as it went over the wire.
    pub fn message(&mut self, raw: String)
        ensures
            final(self)@ == (EntryView { messages: old(self)@.messages.push(raw@), ..old(self)@ }),
    {
        let ghost before = self.messages.deep_view();
        self.messages.push(raw);
        assert(self.messages.deep_view() =~= before.push(raw@));
    }

    /// Sets how long the answer took.
    pub fn duration(&mut self, duration: u64)
        ensures
            final(self)@ == (EntryView { duration, ..old(self)@ }),
    {
        self.duration = duration;
    }

    /// The name of the file that keeps the entry: its time in decimal.
    pub fn file_name(&self) -> (name: String)
        ensures
            name@ == text::decimal(self.time as nat),
    {
        text::decimal_string(self.time)
    }

    /// The time of the entry written under `format`, where the date library
    /// can tell the date and make sense of the format.
    pub fn format_time(&self, format: &str) -> (r: Option<String>)
        ensures
            match r {
                Some(s) => date_text(self.time, format@) == Some(s@),
                None => date_text(self.time, format@).is_none(),
            },
    {
        if self.time <= 0x7fff_ffff_ffff_ffff {
            write_time(self.time as i64, format)
        } else {
            None
        }
    }

    /// The field `key` of the entry as text. A key that names no field, or
    /// a field of a part that the entry does not have, is not found.
    pub fn field_as_string(&self, key: &str) -> (r: Result<String, QuartzError>)
        ensures
            match r {
                Ok(s) => field_text(self@, key@) == Some(s@),
                Err(e) => e == QuartzError::NotFound && field_text(self@, key@).is_none(),
            },
    {
        if text::same(key, "handle") {
            proof {
                reveal_strlit("/");
                assert("/"@ =~= seq!['/']);
            }
            Ok(text::joined(&self.path, "/"))
        } else if text::same(key, "time") {
            Ok(text::decimal_string(self.time))
        } else if text::same(key, "date") {
            match self.format_time("%a %b %d %H:%M:%S %Y") {
                Some(s) => Ok(s),
                None => Err(QuartzError::NotFound),
            }
        } else if text::same(key, "duration") {
            Ok(text::decimal_string(self.duration))
        } else if text::same(key, "request.context") {
            match &self.context {
                Some(c) => Ok(c.name.clone()),
                None => Err(QuartzError::NotFound),
            }
        } else if text::same(key, "request.url") || text::same(key, "request.method") || text::same(
            key,
            "request.headers",
        ) || text::same(key, "request.query") || text::same(key, "request.body") {
            match &self.endpoint {
                Some(q) => Ok(
                    if text::same(key, "request.url") {
                        q.url.clone()
                    } else if text::same(key, "request.method") {
                        q.method.clone()
                    } else if text::same(key, "request.headers") {
                        q.headers.render()
                    } else if text::same(key, "request.query") {
                        q.query_string()
                    } else {
                        q.body.clone()
                    },
                ),
                None => Err(QuartzError::NotFound),
            }
        } else if text::same(key, "response.status") || text::same(key, "response.headers")
            || text::same(key, "response.body") || text::same(key, "response.size") {
            match &self.response {
                Some(r) => Ok(
                    if text::same(key, "response.status") {
                        text::decimal_string(r.status as u64)
                    } else if text::same(key, "response.headers") {
                        r.headers.render()
                    } else if text::same(key, "response.body") {
                        r.body.clone()
                    } else {
                        text::decimal_string(r.size)
                    },
                ),
                None => Err(QuartzError::NotFound),
            }
        } else {
            Err(QuartzError::NotFound)
        }
    }
}

/// A copy of a list of strings.
pub fn copy_of(list: &Vec<String>) -> (out: Vec<String>)
    ensures
        out.deep_view() == list.deep_view(),
{
    let mut out: Vec<String> = Vec::new();
    let mut i: usize = 0;
    assert(out.deep_view() =~= list.deep_view().take(0));
    while i < list.len()
        invariant
            i <= list.len(),
            out.deep_view() == list.deep_view().take(i as int),
        decreases list.len() - i,
    {
        let ghost before = out.deep_view();
        let s = list[i].clone();
        out.push(s);
        assert(out.deep_view() =~= before.push(s@));
        assert(before.push(list.deep_view()[i as int]) =~= list.deep_view().take(i + 1));
        i += 1;
    }
    assert(list.deep_view().take(list.len() as int) == list.deep_view());
    out
}

impl Clone for RequestHistoryEntry {
    fn clone(&self) -> (r: Self)
        ensures
            r@ == self@,
    {
        RequestHistoryEntry {
            path: copy_of(&self.path),
            endpoint: match &self.endpoint {
                Some(e) => Some(e.clone()),
                None => None,
            },
            context: match &self.context {
                Some(c) => Some(c.clone()),
                None => None,
            },
            response: match &self.response {
                Some(r) => Some(r.clone()),
                None => None,
            },
            messages: copy_of(&self.messages),
            time: self.time,
            duration: self.duration,
        }
    }
}

/// The model of a log: its entries, the oldest first.
pub type Log = Seq<EntryView>;

/// Whether the entries stand in strictly ascending order of time.
pub open spec fn ascending(log: Log) -> bool {
    forall|i: int, j: int| 0 <= i < j < log.len() ==> (#[trigger] log[i]).time < (#[trigger] log[j]).time
}

/// Whether the entries stand in strictly descending order of time.
pub open spec fn descending(log: Log) -> bool {
    forall|i: int, j: int| 0 <= i < j < log.len() ==> (#[trigger] log[i]).time > (#[trigger] log[j]).time
}

/// Whether the log has an entry for the time `time`.
pub open spec fn has_time(log: Log, time: u64) -> bool {
    exists|i: int| 0 <= i < log.len() && (#[trigger] log[i]).time == time
}

/// The log after the entry `e` was written: `e` stands at the place of its
/// time, and an entry that had the same time is gone.
pub open spec fn record(log: Log, e: EntryView) -> Log
    decreases log.len(),
{
    if log.len() == 0 {
        seq![e]
    } else if log.last().time < e.time {
        log.push(e)
    } else if log.last().time == e.time {
        log.drop_last().push(e)
    } else {
        record(log.drop_last(), e).push(log.last())
    }
}

/// The log that holds what was written, entry after entry, into an empty
/// log.
pub open spec fn log_of(written: Seq<EntryView>) -> Log
    decreases written.len(),
{
    if written.len() == 0 {
        Log::empty()
    } else {
        record(log_of(written.drop_last()), written.last())
    }
}

/// The place of the time `t` in the log: the position behind the last
/// entry that is not of a later time.
pub open spec fn place(log: Log, t: u64) -> int
    decreases log.len(),
{
    if log.len() == 0 {
        0
    } else if log.last().time > t {
        place(log.drop_last(), t)
    } else {
        log.len() as int
    }
}

proof fn lemma_place(log: Log, t: u64)
    requires
        ascending(log),
    ensures
        0 <= place(log, t) <= log.len(),
        forall|j: int| place(log, t) <= j < log.len() ==> (#[trigger] log[j]).time > t,
        place(log, t) > 0 ==> log[place(log, t) - 1].time <= t,
    decreases log.len(),
{
    if log.len() > 0 && log.last().time > t {
        let rest = log.drop_last();
        assert forall|i: int, j: int| 0 <= i < j < rest.len() implies (#[trigger] rest[i]).time < (
        #[trigger] rest[j]).time by {
            assert(rest[i] == log[i] && rest[j] == log[j]);
        }
        lemma_place(rest, t);
        assert forall|j: int| place(log, t) <= j < log.len() implies (#[trigger] log[j]).time
            > t by {
            if j < rest.len() {
                assert(rest[j] == log[j]);
            }
        }
        if place(log, t) > 0 {
            assert(rest[place(log, t) - 1] == log[place(log, t) - 1]);
        }
    }
}

proof fn lemma_inserted(log: Log, e: EntryView, at: int)
    requires
        ascending(log),
        0 <= at <= log.len(),
        forall|j: int| at <= j < log.len() ==> (#[trigger] log[j]).time > e.time,
        at > 0 ==> log[at - 1].time < e.time,
    ensures
        ascending(log.insert(at, e)),
        log.insert(at, e).contains(e),
        !has_time(log, e.time),
        forall|x: EntryView| x.time != e.time ==> (log.insert(at, e).contains(x) <==> log.contains(x)),
        forall|t: u64| has_time(log.insert(at, e), t) <==> (t == e.time || has_time(log, t)),
{
    let r = log.insert(at, e);
    assert(r[at] == e);
    assert forall|i: int| 0 <= i < r.len() implies #[trigger] r[i] == (if i < at {
        log[i]
    } else if i == at {
        e
    } else {
        log[i - 1]
    }) by {}
    assert forall|i: int| 0 <= i < at implies (#[trigger] log[i]).time < e.time by {
        if i < at - 1 {
            assert(log[i].time < log[at - 1].time);
        }
    }
    assert forall|i: int, j: int| 0 <= i < j < r.len() implies (#[trigger] r[i]).time < (
    #[trigger] r[j]).time by {
        if i < at && j > at {
            assert(log[i].time < log[j - 1].time || i == j - 1);
        } else if i > at {
            assert(log[i - 1].time < log[j - 1].time);
        } else if j < at {
            assert(log[i].time < log[j].time);
        }
    }
    assert(!has_time(log, e.time)) by {
        if has_time(log, e.time) {
            let i = choose|i: int| 0 <= i < log.len() && (#[trigger] log[i]).time == e.time;
            assert(i < at || i >= at);
        }
    }
    assert forall|x: EntryView| x.time != e.time implies (r.contains(x) <==> log.contains(x)) by {
        if r.contains(x) {
            let i = choose|i: int| 0 <= i < r.len() && r[i] == x;
            assert(log[if i < at { i } else { i - 1 }] == x);
        }
        if log.contains(x) {
            let i = choose|i: int| 0 <= i < log.len() && log[i] == x;
            assert(r[if i < at { i } else { i + 1 }] == x);
        }
    }
    assert forall|t: u64| has_time(r, t) <==> (t == e.time || has_time(log, t)) by {
        if has_time(r, t) && t != e.time {
            let i = choose|i: int| 0 <= i < r.len() && (#[trigger] r[i]).time == t;
            assert(log[if i < at { i } else { i - 1 }].time == t);
        }
        if has_time(log, t) {
            let i = choose|i: int| 0 <= i < log.len() && (#[trigger] log[i]).time == t;
            assert(r[if i < at { i } else { i + 1 }].time == t);
        }
    }
}

proof fn lemma_replaced(log: Log, e: EntryView, k: int)
    requires
        ascending(log),
        0 <= k < log.len(),
        log[k].time == e.time,
    ensures
        ascending(log.update(k, e)),
        log.update(k, e).contains(e),
        has_time(log, e.time),
        forall|x: EntryView| x.time != e.time ==> (log.update(k, e).contains(x) <==> log.contains(x)),
        forall|t: u64| has_time(log.update(k, e), t) <==> (t == e.time || has_time(log, t)),
{
    let r = log.update(k, e);
    assert(r[k] == e);
    assert forall|i: int, j: int| 0 <= i < j < r.len() implies (#[trigger] r[i]).time < (
    #[trigger] r[j]).time by {
        assert(r[i].time == log[i].time);
        assert(r[j].time == log[j].time);
    }
    assert forall|x: EntryView| x.time != e.time implies (r.contains(x) <==> log.contains(x)) by {
        if r.contains(x) {
            let i = choose|i: int| 0 <= i < r.len() && r[i] == x;
            assert(log[i] == x);
        }
        if log.contains(x) {
            let i = choose|i: int| 0 <= i < log.len() && log[i] == x;
            assert(r[i] == x);
        }
    }
    assert forall|t: u64| has_time(r, t) <==> (t == e.time || has_time(log, t)) by {
        if has_time(r, t) {
            let i = choose|i: int| 0 <= i < r.len() && (#[trigger] r[i]).time == t;
            assert(log[i].time == t);
        }
        if has_time(log, t) {
            let i = choose|i: int| 0 <= i < log.len() && (#[trigger] log[i]).time == t;
            assert(r[i].time == t);
        }
    }
}

/// Writing an entry keeps the order. The log then holds the entry, and as
/// many entries as before where one of that time was there already, one
/// more where none was. Entries of other times stay.
pub proof fn lemma_record(log: Log, e: EntryView)
    requires
        ascending(log),
    ensures
        ascending(record(log, e)),
        record(log, e).contains(e),
        record(log, e).len() == if has_time(log, e.time) {
            log.len()
        } else {
            log.len() + 1
        },
        forall|x: EntryView| x.time != e.time ==> (record(log, e).contains(x) <==> log.contains(x)),
        forall|t: u64| has_time(record(log, e), t) <==> (t == e.time || has_time(log, t)),
{
    lemma_place(log, e.time);
    let at = place(log, e.time);
    lemma_record_at(log, e, at);
    if at > 0 && log[at - 1].time == e.time {
        lemma_replaced(log, e, at - 1);
    } else {
        lemma_inserted(log, e, at);
    }
}

/// Where an entry goes: behind the entries of an earlier time, in the
/// place of the entry of its own time, before the entries of a later time.
pub proof fn lemma_record_at(log: Log, e: EntryView, at: int)
    requires
        ascending(log),
        0 <= at <= log.len(),
        forall|j: int| at <= j < log.len() ==> (#[trigger] log[j]).time > e.time,
        at > 0 ==> log[at - 1].time <= e.time,
    ensures
        record(log, e) == if at > 0 && log[at - 1].time == e.time {
            log.update(at - 1, e)
        } else {
            log.insert(at, e)
        },
    decreases log.len() - at,
{
    if at == log.len() {
        if at > 0 && log[at - 1].time == e.time {
            assert(log.drop_last().push(e) =~= log.update(at - 1, e));
        } else {
            assert(log.push(e) =~= log.insert(at, e));
            if at == 0 {
                assert(seq![e] =~= log.insert(0, e));
            }
        }
    } else {
        let rest = log.drop_last();
        assert(log.last().time > e.time);
        assert forall|i: int, j: int| 0 <= i < j < rest.len() implies (#[trigger] rest[i]).time < (
        #[trigger] rest[j]).time by {
            assert(rest[i] == log[i] && rest[j] == log[j]);
        }
        assert forall|j: int| at <= j < rest.len() implies (#[trigger] rest[j]).time > e.time by {
            assert(rest[j] == log[j]);
        }
        lemma_record_at(rest, e, at);
        if at > 0 && log[at - 1].time == e.time {
            assert(rest.update(at - 1, e).push(log.last()) =~= log.update(at - 1, e));
        } else {
            assert(rest.insert(at, e).push(log.last()) =~= log.insert(at, e));
        }
    }
}

/// A log written entry after entry is in ascending order of time.
pub proof fn lemma_log_ascending(written: Seq<EntryView>)
    ensures
        ascending(log_of(written)),
        forall|t: u64| has_time(log_of(written), t) <==> has_time(written, t),
    decreases written.len(),
{
    if written.len() > 0 {
        let rest = written.drop_last();
        lemma_log_ascending(rest);
        lemma_record(log_of(rest), written.last());
        assert forall|t: u64| has_time(log_of(written), t) <==> has_time(written, t) by {
            if has_time(written, t) {
                let i = choose|i: int| 0 <= i < written.len() && (#[trigger] written[i]).time == t;
                if i < rest.len() {
                    assert(rest[i].time == t);
                }
            }
            if has_time(rest, t) {
                let i = choose|i: int| 0 <= i < rest.len() && (#[trigger] rest[i]).time == t;
                assert(written[i].time == t);
            }
            if t == written.last().time {
                assert(written[written.len() - 1].time == t);
            }
        }
    } else {
        assert forall|t: u64| !has_time(log_of(written), t) by {}
    }
}

/// After `n` entries of `n` different times were written into an empty
/// log, the log holds `n` entries; read from the newest to the oldest they
/// stand in strictly descending order of time, and the newest comes first.
pub proof fn lemma_log_of_writes(written: Seq<EntryView>)
    requires
        forall|i: int, j: int|
            0 <= i < j < written.len() ==> (#[trigger] written[i]).time != (
            #[trigger] written[j]).time,
    ensures
        log_of(written).len() == written.len(),
        ascending(log_of(written)),
        descending(log_of(written).reverse()),
        written.len() > 0 ==> log_of(written).reverse()[0] == log_of(written).last(),
    decreases written.len(),
{
    lemma_log_ascending(written);
    lemma_reverse(log_of(written));
    if written.len() > 0 {
        let rest = written.drop_last();
        assert forall|i: int, j: int| 0 <= i < j < rest.len() implies (#[trigger] rest[i]).time != (
        #[trigger] rest[j]).time by {
            assert(rest[i] == written[i] && rest[j] == written[j]);
        }
        lemma_log_of_writes(rest);
        lemma_log_ascending(rest);
        lemma_record(log_of(rest), written.last());
        assert(!has_time(rest, written.last().time)) by {
            if has_time(rest, written.last().time) {
                let i = choose|i: int|
                    0 <= i < rest.len() && (#[trigger] rest[i]).time == written.last().time;
                assert(written[i].time == written[written.len() - 1].time);
            }
        }
    }
}

/// A log read backwards stands in descending order, its newest entry
/// first.
pub proof fn lemma_reverse(log: Log)
    requires
        ascending(log),
    ensures
        descending(log.reverse()),
        log.len() > 0 ==> log.reverse()[0] == log.last(),
{
    let r = log.reverse();
    assert forall|i: int, j: int| 0 <= i < j < r.len() implies (#[trigger] r[i]).time > (
    #[trigger] r[j]).time by {
        assert(r[i] == log[log.len() - 1 - i]);
        assert(r[j] == log[log.len() - 1 - j]);
    }
}

/// The history log.
pub struct RequestHistory {
    entries: Vec<RequestHistoryEntry>,
    unvisited: usize,
}

/// The entries that a list stands for.
pub open spec fn log_model(v: Seq<RequestHistoryEntry>) -> Log {
    v.map_values(|e: RequestHistoryEntry| e@)
}

impl View for RequestHistory {
    type V = Log;

    closed spec fn view(&self) -> Log {
        log_model(self.entries@)
    }
}

impl RequestHistory {
    /// The invariant of the type: the entries stand in ascending order of
    /// time, one for a time.
    #[verifier::type_invariant]
    pub closed spec fn wf(&self) -> bool {
        ascending(log_model(self.entries@)) && self.unvisited <= self.entries.len()
    }

    /// How many entries have not been handed out by `next` yet.
    pub closed spec fn unvisited(&self) -> nat {
        self.unvisited as nat
    }

    /// The log of a well-formed history is in ascending order.
    pub proof fn lemma_wf(&self)
        requires
            self.wf(),
        ensures
            ascending(self@),
            self.unvisited() <= self@.len(),
    {
    }

    /// The empty log.
    pub fn new() -> (h: Self)
        ensures
            h@ == Log::empty(),
            h.unvisited() == 0,
    {
        let h = RequestHistory { entries: Vec::new(), unvisited: 0 };
        assert(h@ =~= Log::empty());
        h
    }

    /// The number of entries.
    pub fn len(&self) -> (n: usize)
        ensures
            n == self@.len(),
    {
        self.entries.len()
    }

    /// Writes the entry into the log. An entry of the same time that was
    /// there before is written over. Reading starts anew: every entry is
    /// unvisited again.
    pub fn write(&mut self, entry: RequestHistoryEntry)
        ensures
            final(self)@ == record(old(self)@, entry@),
            final(self).unvisited() == final(self)@.len(),
    {
        proof {
            use_type_invariant(&*self);
            lemma_record(self@, entry@);
        }
        let ghost before = self@;
        let mut entries: Vec<RequestHistoryEntry> = Vec::new();
        self.unvisited = 0;
        std::mem::swap(&mut entries, &mut self.entries);
        let mut at: usize = entries.len();
        while at > 0 && entries[at - 1].time > entry.time
            invariant
                at <= entries.len(),
                log_model(entries@) == before,
                forall|j: int| at <= j < entries.len() ==> (#[trigger] before[j]).time > entry.time,
            decreases at,
        {
            at -= 1;
        }
        proof {
            lemma_record_at(before, entry@, at as int);
        }
        if at > 0 && entries[at - 1].time == entry.time {
            entries.remove(at - 1);
            entries.insert(at - 1, entry);
            assert(log_model(entries@) =~= before.update(at - 1, entry@));
        } else {
            entries.insert(at, entry);
            assert(log_model(entries@) =~= before.insert(at as int, entry@));
        }
        let n = entries.len();
        self.entries = entries;
        self.unvisited = n;
    }

    /// The entries from the newest to the oldest. Each call reads the log
    /// from its newest entry again.
    pub fn iterate(&self) -> (out: Vec<&RequestHistoryEntry>)
        ensures
            out@.len() == self@.len(),
            forall|i: int| 0 <= i < out@.len() ==> (#[trigger] out@[i])@ == self@.reverse()[i],
            descending(self@.reverse()),
    {
        proof {
            use_type_invariant(self);
            lemma_reverse(self@);
        }
        let mut out: Vec<&RequestHistoryEntry> = Vec::new();
        let n = self.entries.len();
        let mut i: usize = 0;
        while i < n
            invariant
                i <= n == self.entries.len(),
                out@.len() == i,
                forall|k: int| 0 <= k < i ==> (#[trigger] out@[k])@ == self@[n - 1 - k],
            decreases n - i,
        {
            out.push(&self.entries[n - 1 - i]);
            i += 1;
        }
        out
    }

    /// The newest entry. An empty log has none.
    pub fn last(&self) -> (r: Result<&RequestHistoryEntry, QuartzError>)
        ensures
            match r {
                Ok(e) => self@.len() > 0 && e@ == self@.reverse()[0] && e@ == self@.last(),
                Err(e) => e == QuartzError::NotFound && self@.len() == 0,
            },
    {
        if self.entries.len() == 0 {
            Err(QuartzError::NotFound)
        } else {
            Ok(&self.entries[self.entries.len() - 1])
        }
    }

    /// The newest entry that was not handed out yet, if one is left.
    pub fn next(&mut self) -> (r: Option<&RequestHistoryEntry>)
        ensures
            final(self)@ == old(self)@,
            match r {
                Some(e) => old(self).unvisited() > 0 && final(self).unvisited() == old(
                    self,
                ).unvisited() - 1 && e@ == old(self)@[old(self).unvisited() - 1],
                None => old(self).unvisited() == 0 && final(self).unvisited() == 0,
            },
    {
        proof {
            use_type_invariant(&*self);
        }
        if self.unvisited == 0 {
            None
        } else {
            self.unvisited = self.unvisited - 1;
            Some(&self.entries[self.unvisited])
        }
    }
}

/// `s`, which is in ascending order, with `x` put in at its place.
pub open spec fn insert_sorted(s: Seq<u64>, x: u64) -> Seq<u64>
    decreases s.len(),
{
    if s.len() == 0 {
        seq![x]
    } else if s.last() <= x {
        s.push(x)
    } else {
        insert_sorted(s.drop_last(), x).push(s.last())
    }
}

/// The numbers of `v` in ascending order.
pub open spec fn sorted_of(v: Seq<u64>) -> Seq<u64>
    decreases v.len(),
{
    if v.len() == 0 {
        Seq::<u64>::empty()
    } else {
        insert_sorted(sorted_of(v.drop_last()), v.last())
    }
}

/// Whether the numbers stand in ascending order.
pub open spec fn is_sorted(s: Seq<u64>) -> bool {
    forall|i: int, j: int| 0 <= i < j < s.len() ==> s[i] <= s[j]
}

/// The time that the name of an entry's file stands for.
pub open spec fn time_of(name: Seq<char>) -> Option<u64> {
    match text::parse_decimal(name) {
        Some(n) => if n <= u64::MAX {
            Some(n as u64)
        } else {
            None
        },
        None => None,
    }
}

/// The times that the names stand for, where each of them stands for one.
pub open spec fn times_of(names: Seq<Seq<char>>) -> Option<Seq<u64>>
    decreases names.len(),
{
    if names.len() == 0 {
        Some(Seq::<u64>::empty())
    } else {
        match (times_of(names.drop_last()), time_of(names.last())) {
            (Some(ts), Some(t)) => Some(ts.push(t)),
            _ => None,
        }
    }
}

/// Putting a number into a sorted run leaves it sorted, with that number
/// more.
pub proof fn lemma_insert_sorted(s: Seq<u64>, x: u64)
    requires
        is_sorted(s),
    ensures
        is_sorted(insert_sorted(s, x)),
        insert_sorted(s, x).len() == s.len() + 1,
        insert_sorted(s, x).to_multiset() == s.to_multiset().insert(x),
    decreases s.len(),
{
    broadcast use vstd::seq_lib::group_to_multiset_ensures;

    let r = insert_sorted(s, x);
    if s.len() == 0 {
        assert(seq![x] =~= Seq::<u64>::empty().push(x));
        assert(s =~= Seq::<u64>::empty());
    } else if s.last() <= x {
        assert forall|i: int, j: int| 0 <= i < j < r.len() implies r[i] <= r[j] by {
            if j == s.len() {
                assert(s[i] <= s[s.len() - 1]);
            }
        }
    } else {
        let rest = s.drop_last();
        assert forall|i: int, j: int| 0 <= i < j < rest.len() implies rest[i] <= rest[j] by {
            assert(rest[i] == s[i] && rest[j] == s[j]);
        }
        lemma_insert_sorted(rest, x);
        let q = insert_sorted(rest, x);
        assert(s =~= rest.push(s.last()));
        assert(q.to_multiset().insert(s.last()) =~= s.to_multiset().insert(x));
        assert forall|i: int| 0 <= i < q.len() implies q[i] <= s.last() by {
            assert(q.to_multiset().count(q[i]) > 0);
            if q[i] != x {
                assert(rest.to_multiset().count(q[i]) > 0);
                assert(rest.contains(q[i]));
                let k = choose|k: int| 0 <= k < rest.len() && rest[k] == q[i];
                assert(s[k] <= s[s.len() - 1]);
            }
        }
        assert forall|i: int, j: int| 0 <= i < j < r.len() implies r[i] <= r[j] by {
            assert(r[i] == q[i]);
            if j < q.len() {
                assert(r[j] == q[j]);
            }
        }
    }
}

/// The numbers of a list in ascending order are the same numbers, each as
/// often as in the list, and they do stand in ascending order.
pub proof fn lemma_sorted_of(v: Seq<u64>)
    ensures
        is_sorted(sorted_of(v)),
        sorted_of(v).len() == v.len(),
        sorted_of(v).to_multiset() == v.to_multiset(),
    decreases v.len(),
{
    broadcast use vstd::seq_lib::group_to_multiset_ensures;

    if v.len() > 0 {
        lemma_sorted_of(v.drop_last());
        lemma_insert_sorted(sorted_of(v.drop_last()), v.last());
        assert(v =~= v.drop_last().push(v.last()));
    }
}

/// Puts `x` at its place into `v`, which is in ascending order.
fn insert_in_order(v: &mut Vec<u64>, x: u64)
    ensures
        final(v)@ == insert_sorted(old(v)@, x),
{
    let mut at: usize = v.len();
    proof {
        assert(v@.take(at as int) == v@);
        assert(v@.skip(at as int) == Seq::<u64>::empty());
        assert(insert_sorted(v@, x) + Seq::<u64>::empty() == insert_sorted(v@, x));
    }
    while at > 0 && v[at - 1] > x
        invariant
            at <= v.len(),
            v@ == old(v)@,
            insert_sorted(v@, x) == insert_sorted(v@.take(at as int), x) + v@.skip(at as int),
        decreases at,
    {
        proof {
            let t = v@.take(at as int);
            assert(t.last() == v@[at - 1]);
            assert(t.drop_last() == v@.take(at - 1));
            assert(insert_sorted(v@.take(at - 1), x).push(v@[at - 1]) + v@.skip(at as int)
                =~= insert_sorted(v@.take(at - 1), x) + v@.skip(at - 1));
        }
        at -= 1;
    }
    proof {
        let t = v@.take(at as int);
        if at > 0 {
            assert(t.last() == v@[at - 1]);
        }
        assert(insert_sorted(t, x) =~= t.push(x));
        assert(t.push(x) + v@.skip(at as int) =~= v@.insert(at as int, x));
    }
    v.insert(at, x);
}

impl RequestHistory {
    /// The times of the entries that are kept under the given file names,
    /// in ascending order. A name that is not a time makes the history
    /// unreadable.
    pub fn timestamps(names: &Vec<String>) -> (r: Result<Vec<u64>, QuartzError>)
        ensures
            match r {
                Ok(v) => times_of(names.deep_view()).is_some() && v@ == sorted_of(
                    times_of(names.deep_view()).unwrap(),
                ),
                Err(e) => e == QuartzError::MalformedInput && times_of(names.deep_view()).is_none(),
            },
    {
        let mut out: Vec<u64> = Vec::new();
        let mut i: usize = 0;
        let ghost all = names.deep_view();
        assert(all.take(0) == Seq::<Seq<char>>::empty());
        while i < names.len()
            invariant
                i <= names.len(),
                all == names.deep_view(),
                times_of(all.take(i as int)).is_some(),
                out@ == sorted_of(times_of(all.take(i as int)).unwrap()),
            decreases names.len() - i,
        {
            proof {
                let t = all.take(i + 1);
                assert(t.drop_last() == all.take(i as int));
                assert(t.last() == names[i as int]@);
            }
            match text::parse_u64(names[i].as_str()) {
                Some(t) => {
                    proof {
                        let ts = times_of(all.take(i as int)).unwrap();
                        assert(ts.push(t).drop_last() == ts);
                    }
                    insert_in_order(&mut out, t);
                },
                None => {
                    proof {
                        lemma_times_spoiled(all, i as int);
                    }
                    return Err(QuartzError::MalformedInput);
                },
            }
            i += 1;
        }
        assert(all.take(all.len() as int) == all);
        Ok(out)
    }
}

/// Once a name stands for no time, the names stand for no times.
proof fn lemma_times_spoiled(names: Seq<Seq<char>>, i: int)
    requires
        0 <= i < names.len(),
        time_of(names[i]).is_none(),
    ensures
        times_of(names).is_none(),
    decreases names.len(),
{
    if i < names.len() - 1 {
        lemma_times_spoiled(names.drop_last(), i);
    }
}

} // verus!
