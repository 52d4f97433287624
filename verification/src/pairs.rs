//! Ordered key-value mappings with unique keys.
//!
//! Headers, query parameters and variables are all kept as a `PairMap`. The
//! mapping remembers the order in which keys first came in; setting a key
//! that is already there replaces its value in place.

use vstd::prelude::*;
use vstd::string::StringExecFns;
use crate::error::QuartzError;
use crate::text;

verus! {

/// The model of a mapping: its entries, key first, in order.
pub type Entries = Seq<(Seq<char>, Seq<char>)>;

/// The position of the first entry with key `k`, or the length of `e` if
/// there is none.
pub open spec fn position(e: Entries, k: Seq<char>) -> int
    decreases e.len(),
{
    if e.len() == 0 {
        0
    } else if e[0].0 == k {
        0
    } else {
        1 + position(e.drop_first(), k)
    }
}

/// Whether some entry of `e` has key `k`.
pub open spec fn has_key(e: Entries, k: Seq<char>) -> bool {
    position(e, k) < e.len()
}

/// The value that `e` gives to `k`.
pub open spec fn value_of(e: Entries, k: Seq<char>) -> Option<Seq<char>> {
    if has_key(e, k) {
        Some(e[position(e, k)].1)
    } else {
        None
    }
}

/// Whether no key occurs twice in `e`.
pub open spec fn distinct(e: Entries) -> bool {
    forall|i: int, j: int| 0 <= i < j < e.len() ==> e[i].0 != e[j].0
}

/// `e` with `k` set to `v`: in place where `k` is already a key, at the end
/// where it is new.
pub open spec fn put(e: Entries, k: Seq<char>, v: Seq<char>) -> Entries {
    if has_key(e, k) {
        e.update(position(e, k), (k, v))
    } else {
        e.push((k, v))
    }
}

/// `e` without the entry for `k`.
pub open spec fn without(e: Entries, k: Seq<char>) -> Entries {
    if has_key(e, k) {
        e.remove(position(e, k))
    } else {
        e
    }
}

/// `base` with every entry of `over` set on it, in the order of `over`:
/// on a common key the value of `over` wins, other entries of `base` stay.
pub open spec fn overlay(base: Entries, over: Entries) -> Entries
    decreases over.len(),
{
    if over.len() == 0 {
        base
    } else {
        put(overlay(base, over.drop_last()), over.last().0, over.last().1)
    }
}

/// `base` with the entries of `extra` whose key `base` does not have yet.
pub open spec fn fill(base: Entries, extra: Entries) -> Entries
    decreases extra.len(),
{
    if extra.len() == 0 {
        base
    } else {
        let rest = fill(base, extra.drop_last());
        if has_key(rest, extra.last().0) {
            rest
        } else {
            rest.push(extra.last())
        }
    }
}

/// What `position` finds: the first entry with the key, if there is one.
pub proof fn lemma_position(e: Entries, k: Seq<char>)
    ensures
        0 <= position(e, k) <= e.len(),
        position(e, k) < e.len() ==> e[position(e, k)].0 == k,
        forall|j: int| 0 <= j < position(e, k) ==> e[j].0 != k,
    decreases e.len(),
{
    if e.len() > 0 && e[0].0 != k {
        let t = e.drop_first();
        lemma_position(t, k);
        assert forall|j: int| 0 <= j < position(e, k) implies e[j].0 != k by {
            if j > 0 {
                assert(t[j - 1] == e[j]);
            }
        }
    }
}

/// A position with the key, before which the key does not occur, is the
/// one that `position` gives; so is the length where the key occurs nowhere.
pub proof fn lemma_position_is(e: Entries, k: Seq<char>, i: int)
    requires
        0 <= i <= e.len(),
        i < e.len() ==> e[i].0 == k,
        forall|j: int| 0 <= j < i ==> e[j].0 != k,
    ensures
        position(e, k) == i,
{
    lemma_position(e, k);
}

/// Setting a key keeps the keys distinct, gives the key its new value and
/// leaves every other key as it was.
pub proof fn lemma_put(e: Entries, k: Seq<char>, v: Seq<char>)
    requires
        distinct(e),
    ensures
        distinct(put(e, k, v)),
        value_of(put(e, k, v), k) == Some(v),
        forall|o: Seq<char>| o != k ==> value_of(put(e, k, v), o) == value_of(e, o),
        forall|o: Seq<char>| has_key(put(e, k, v), o) <==> (o == k || has_key(e, o)),
{
    let p = put(e, k, v);
    lemma_position(e, k);
    let i = position(e, k);
    assert(p[i] == (k, v));
    lemma_position_is(p, k, i);
    assert forall|o: Seq<char>| o != k implies value_of(p, o) == value_of(e, o) && (has_key(p, o)
        <==> has_key(e, o)) by {
        lemma_position(e, o);
        let j = position(e, o);
        if j < e.len() {
            assert(p[j] == e[j]);
        }
        lemma_position_is(p, o, if j < e.len() { j } else { p.len() as int });
    }
}

/// Removing a key keeps the keys distinct, takes the key out and leaves
/// every other key as it was.
pub proof fn lemma_without(e: Entries, k: Seq<char>)
    requires
        distinct(e),
    ensures
        distinct(without(e, k)),
        value_of(without(e, k), k).is_none(),
        forall|o: Seq<char>| o != k ==> value_of(without(e, k), o) == value_of(e, o),
{
    let w = without(e, k);
    lemma_position(e, k);
    let i = position(e, k);
    if i < e.len() {
        assert forall|a: int| 0 <= a < w.len() implies w[a].0 != k by {
            if a < i {
                assert(w[a] == e[a]);
            } else {
                assert(w[a] == e[a + 1]);
            }
        }
        lemma_position_is(w, k, w.len() as int);
        assert forall|o: Seq<char>| o != k implies value_of(w, o) == value_of(e, o) by {
            lemma_position(e, o);
            let j = position(e, o);
            if j < i {
                assert(w[j] == e[j]);
                lemma_position_is(w, o, j);
            } else if j < e.len() {
                assert(w[j - 1] == e[j]);
                assert forall|a: int| 0 <= a < j - 1 implies w[a].0 != o by {
                    if a < i {
                        assert(w[a] == e[a]);
                    } else {
                        assert(w[a] == e[a + 1]);
                    }
                }
                lemma_position_is(w, o, j - 1);
            } else {
                assert forall|a: int| 0 <= a < w.len() implies w[a].0 != o by {
                    if a < i {
                        assert(w[a] == e[a]);
                    } else {
                        assert(w[a] == e[a + 1]);
                    }
                }
                lemma_position_is(w, o, w.len() as int);
            }
        }
    }
}

/// What a key-value input of the form `<key>=<value>` holds: the key as
/// written, and the value without the single quotes and then the double
/// quotes around it. An input without `=` holds no pair.
pub open spec fn pair_of(input: Seq<char>) -> Option<(Seq<char>, Seq<char>)> {
    match text::split_once(input, seq!['=']) {
        Some((k, v)) => Some((k, text::strip(text::strip(v, '\''), '"'))),
        None => None,
    }
}

/// The text that lists `e`: for each entry its key, `sep`, its value and a
/// line break.
pub open spec fn listing(e: Entries, sep: Seq<char>) -> Seq<char>
    decreases e.len(),
{
    if e.len() == 0 {
        Seq::<char>::empty()
    } else {
        listing(e.drop_last(), sep) + e.last().0 + sep + e.last().1 + seq!['\n']
    }
}

/// One entry of a mapping.
pub struct Pair {
    pub key: String,
    pub value: String,
}

impl View for Pair {
    type V = (Seq<char>, Seq<char>);

    open spec fn view(&self) -> (Seq<char>, Seq<char>) {
        (self.key@, self.value@)
    }
}

impl Clone for Pair {
    fn clone(&self) -> (r: Self)
        ensures
            r@ == self@,
    {
        Pair { key: self.key.clone(), value: self.value.clone() }
    }
}

/// The entries that a list of pairs stands for.
pub open spec fn model(v: Seq<Pair>) -> Entries {
    v.map_values(|p: Pair| p@)
}

/// An ordered mapping from keys to values in which no key occurs twice.
pub struct PairMap {
    entries: Vec<Pair>,
}

impl View for PairMap {
    type V = Entries;

    closed spec fn view(&self) -> Entries {
        model(self.entries@)
    }
}

impl PairMap {
    /// The invariant of the type: no key occurs twice.
    #[verifier::type_invariant]
    pub open spec fn wf(&self) -> bool {
        distinct(self@)
    }

    /// The empty mapping.
    pub fn new() -> (m: Self)
        ensures
            m@ == Entries::empty(),
    {
        let m = PairMap { entries: Vec::new() };
        assert(m@ =~= Entries::empty());
        m
    }

    /// The number of entries.
    pub fn len(&self) -> (n: usize)
        ensures
            n == self@.len(),
    {
        self.entries.len()
    }

    /// The entry at position `i`.
    pub fn entry(&self, i: usize) -> (p: &Pair)
        requires
            i < self@.len(),
        ensures
            p@ == self@[i as int],
    {
        &self.entries[i]
    }

    fn index_of(&self, key: &String) -> (i: usize)
        ensures
            i == position(self@, key@),
            i <= self@.len(),
    {
        let mut i: usize = 0;
        while i < self.entries.len()
            invariant
                i <= self.entries.len(),
                forall|j: int| 0 <= j < i ==> self@[j].0 != key@,
            decreases self.entries.len() - i,
        {
            if self.entries[i].key == *key {
                proof {
                    lemma_position_is(self@, key@, i as int);
                }
                return i;
            }
            i += 1;
        }
        proof {
            lemma_position_is(self@, key@, i as int);
        }
        i
    }

    /// Whether `key` is a key of the mapping.
    pub fn contains_key(&self, key: &str) -> (r: bool)
        ensures
            r == has_key(self@, key@),
    {
        let k = key.to_owned();
        self.index_of(&k) < self.entries.len()
    }

    /// The value of `key`.
    pub fn get(&self, key: &str) -> (r: Option<&String>)
        ensures
            match r {
                Some(v) => value_of(self@, key@) == Some(v@),
                None => value_of(self@, key@).is_none(),
            },
    {
        let k = key.to_owned();
        let i = self.index_of(&k);
        if i < self.entries.len() {
            Some(&self.entries[i].value)
        } else {
            None
        }
    }

    /// Sets `key` to `value` and gives back the value it had before.
    pub fn insert(&mut self, key: String, value: String) -> (before: Option<String>)
        ensures
            final(self)@ == put(old(self)@, key@, value@),
            match before {
                Some(v) => value_of(old(self)@, key@) == Some(v@),
                None => value_of(old(self)@, key@).is_none(),
            },
    {
        proof {
            use_type_invariant(&*self);
            lemma_put(self@, key@, value@);
        }
        let i = self.index_of(&key);
        let ghost goal = put(self@, key@, value@);
        let mut entries: Vec<Pair> = Vec::new();
        std::mem::swap(&mut entries, &mut self.entries);
        let before = if i < entries.len() {
            let gone = entries.remove(i);
            entries.insert(i, Pair { key, value });
            Some(gone.value)
        } else {
            entries.push(Pair { key, value });
            None
        };
        assert(model(entries@) =~= goal);
        self.entries = entries;
        before
    }

    /// Takes `key` out of the mapping and gives back the value it had.
    pub fn remove(&mut self, key: &str) -> (before: Option<String>)
        ensures
            final(self)@ == without(old(self)@, key@),
            match before {
                Some(v) => value_of(old(self)@, key@) == Some(v@),
                None => value_of(old(self)@, key@).is_none(),
            },
    {
        proof {
            use_type_invariant(&*self);
            lemma_without(self@, key@);
        }
        let k = key.to_owned();
        let i = self.index_of(&k);
        let ghost goal = without(self@, key@);
        let mut entries: Vec<Pair> = Vec::new();
        std::mem::swap(&mut entries, &mut self.entries);
        let before = if i < entries.len() {
            let gone = entries.remove(i);
            Some(gone.value)
        } else {
            None
        };
        assert(model(entries@) =~= goal);
        self.entries = entries;
        before
    }

    /// Gives the entry at position `i` the value `value`; its key stays.
    pub fn revalue(&mut self, i: usize, value: String)
        requires
            i < old(self)@.len(),
        ensures
            final(self)@ == old(self)@.update(i as int, (old(self)@[i as int].0, value@)),
    {
        proof {
            use_type_invariant(&*self);
        }
        let ghost goal = self@.update(i as int, (self@[i as int].0, value@));
        let mut entries: Vec<Pair> = Vec::new();
        std::mem::swap(&mut entries, &mut self.entries);
        let gone = entries.remove(i);
        entries.insert(i, Pair { key: gone.key, value });
        assert(model(entries@) =~= goal);
        self.entries = entries;
    }

    /// Reads `input` as `<key>=<value>` and sets that key to that value.
    /// An input without `=` is refused and changes nothing.
    pub fn set(&mut self, input: &str) -> (r: Result<(), QuartzError>)
        ensures
            match pair_of(input@) {
                Some((k, v)) => r.is_ok() && final(self)@ == put(old(self)@, k, v),
                None => r == Err::<(), QuartzError>(QuartzError::MalformedInput) && final(self)@
                    == old(self)@,
            },
    {
        proof {
            reveal_strlit("=");
            assert("="@ =~= seq!['=']);
        }
        match text::cut(input, "=") {
            Some((key, value)) => {
                let unquoted = text::stripped(value.as_str(), '\'');
                let value = text::stripped(unquoted.as_str(), '"');
                self.insert(key, value);
                Ok(())
            },
            None => Err(QuartzError::MalformedInput),
        }
    }

    /// Sets every entry of `over` on this mapping: values of `over` win on
    /// common keys, the other entries stay.
    pub fn merge(&mut self, over: &PairMap)
        ensures
            final(self)@ == overlay(old(self)@, over@),
    {
        let mut i: usize = 0;
        while i < over.len()
            invariant
                i <= over@.len(),
                self@ == overlay(old(self)@, over@.take(i as int)),
            decreases over@.len() - i,
        {
            let p = over.entry(i);
            proof {
                let t = over@.take(i + 1);
                assert(t.drop_last() == over@.take(i as int));
                assert(t.last() == over@[i as int]);
            }
            self.insert(p.key.clone(), p.value.clone());
            i += 1;
        }
        assert(over@.take(over@.len() as int) == over@);
    }

    /// Adds the entries of `extra` whose key this mapping does not have.
    pub fn fill(&mut self, extra: &PairMap)
        ensures
            final(self)@ == fill(old(self)@, extra@),
    {
        let mut i: usize = 0;
        while i < extra.len()
            invariant
                i <= extra@.len(),
                self@ == fill(old(self)@, extra@.take(i as int)),
            decreases extra@.len() - i,
        {
            let p = extra.entry(i);
            proof {
                let t = extra@.take(i + 1);
                assert(t.drop_last() == extra@.take(i as int));
                assert(t.last() == extra@[i as int]);
            }
            if !self.contains_key(p.key.as_str()) {
                let ghost before = self@;
                self.insert(p.key.clone(), p.value.clone());
                assert(self@ == before.push(p@));
            }
            i += 1;
        }
        assert(extra@.take(extra@.len() as int) == extra@);
    }

    /// The text that lists the mapping, one entry a line, with `sep`
    /// between key and value.
    pub fn render(&self, sep: &str) -> (out: String)
        ensures
            out@ == listing(self@, sep@),
    {
        let mut out = String::new();
        let mut i: usize = 0;
        proof {
            reveal_strlit("\n");
            assert("\n"@ =~= seq!['\n']);
            assert(self@.take(0) == Entries::empty());
        }
        while i < self.entries.len()
            invariant
                i <= self.entries.len(),
                "\n"@ == seq!['\n'],
                out@ == listing(self@.take(i as int), sep@),
            decreases self.entries.len() - i,
        {
            proof {
                let t = self@.take(i + 1);
                assert(t.drop_last() == self@.take(i as int));
                assert(t.last() == self@[i as int]);
            }
            out.append(self.entries[i].key.as_str());
            out.append(sep);
            out.append(self.entries[i].value.as_str());
            out.append("\n");
            i += 1;
        }
        assert(self@.take(self@.len() as int) == self@);
        out
    }
}

impl Clone for PairMap {
    fn clone(&self) -> (r: Self)
        ensures
            r@ == self@,
    {
        proof {
            use_type_invariant(self);
        }
        let mut entries: Vec<Pair> = Vec::new();
        let mut i: usize = 0;
        while i < self.entries.len()
            invariant
                i <= self.entries.len(),
                model(entries@) == self@.take(i as int),
            decreases self.entries.len() - i,
        {
            let p = self.entries[i].clone();
            let ghost before = model(entries@);
            entries.push(p);
            assert(model(entries@) =~= before.push(p@));
            assert(before.push(self@[i as int]) =~= self@.take(i + 1));
            i += 1;
        }
        assert(self@.take(self@.len() as int) == self@);
        PairMap { entries }
    }
}

/// What an overlay gives to a key: the value of `over` where `over` has
/// the key, the value of `base` otherwise. The keys stay distinct.
pub proof fn lemma_overlay(base: Entries, over: Entries, k: Seq<char>)
    requires
        distinct(base),
        distinct(over),
    ensures
        distinct(overlay(base, over)),
        value_of(overlay(base, over), k) == if has_key(over, k) {
            value_of(over, k)
        } else {
            value_of(base, k)
        },
    decreases over.len(),
{
    if over.len() > 0 {
        let rest = over.drop_last();
        let last = over.last();
        lemma_overlay(base, rest, k);
        lemma_put(overlay(base, rest), last.0, last.1);
        lemma_drop_last(over, k);
    }
}

/// How the entry for a key in `e` relates to the one in `e` without its
/// last entry, where the keys of `e` are distinct.
pub proof fn lemma_drop_last(e: Entries, k: Seq<char>)
    requires
        e.len() > 0,
        distinct(e),
    ensures
        distinct(e.drop_last()),
        e.last().0 == k ==> value_of(e, k) == Some(e.last().1) && !has_key(e.drop_last(), k),
        e.last().0 != k ==> value_of(e, k) == value_of(e.drop_last(), k),
{
    let rest = e.drop_last();
    lemma_position(e, k);
    lemma_position(rest, k);
    let i = position(rest, k);
    if i < rest.len() {
        assert(rest[i] == e[i]);
        lemma_position_is(e, k, i);
    } else if e.last().0 == k {
        assert forall|j: int| 0 <= j < e.len() - 1 implies e[j].0 != k by {
            assert(rest[j] == e[j]);
        }
        lemma_position_is(e, k, e.len() - 1);
    } else {
        assert forall|j: int| 0 <= j < e.len() implies e[j].0 != k by {
            if j < e.len() - 1 {
                assert(rest[j] == e[j]);
            }
        }
        lemma_position_is(e, k, e.len() as int);
    }
}

/// What a fill gives to a key: the value of `base` where `base` has the
/// key, the value of `extra` otherwise. The keys stay distinct.
pub proof fn lemma_fill(base: Entries, extra: Entries, k: Seq<char>)
    requires
        distinct(base),
        distinct(extra),
    ensures
        distinct(fill(base, extra)),
        value_of(fill(base, extra), k) == if has_key(base, k) {
            value_of(base, k)
        } else {
            value_of(extra, k)
        },
    decreases extra.len(),
{
    if extra.len() > 0 {
        let rest = extra.drop_last();
        let last = extra.last();
        lemma_fill(base, rest, k);
        lemma_fill(base, rest, last.0);
        lemma_drop_last(extra, k);
        lemma_drop_last(extra, last.0);
        let f = fill(base, rest);
        if !has_key(f, last.0) {
            lemma_put(f, last.0, last.1);
            assert(put(f, last.0, last.1) == f.push(last));
        }
    }
}

} // verus!
