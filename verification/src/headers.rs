//! Header sets: ordered mappings whose keys are kept in lower case.

use vstd::prelude::*;
use crate::error::QuartzError;
use crate::pairs::{
    distinct, fill, has_key, listing, overlay, put, value_of, without, Entries, Pair, PairMap,
};
use crate::text;

verus! {

/// Whether every key of `e` is in lower case.
pub open spec fn folded(e: Entries) -> bool {
    forall|i: int| 0 <= i < e.len() ==> (#[trigger] e[i]).0 == text::lowercase(e[i].0)
}

/// What a header input of the form `<key>: <value>` holds: the key in lower
/// case and the value as written. An input without `: ` holds no header.
pub open spec fn header_of(input: Seq<char>) -> Option<(Seq<char>, Seq<char>)> {
    match text::split_once(input, seq![':', ' ']) {
        Some((k, v)) => Some((text::lowercase(k), v)),
        None => None,
    }
}

/// Putting a string in lower case twice is the same as doing it once.
pub proof fn lemma_lowercase_twice(s: Seq<char>)
    ensures
        text::lowercase(text::lowercase(s)) == text::lowercase(s),
{
    assert(text::lowercase(text::lowercase(s)) =~= text::lowercase(s));
}

/// Setting a lower-case key on folded entries leaves them folded; so does
/// removing a key.
pub proof fn lemma_folded(e: Entries, k: Seq<char>, v: Seq<char>)
    requires
        folded(e),
        k == text::lowercase(k),
    ensures
        folded(put(e, k, v)),
        folded(without(e, k)),
{
    crate::pairs::lemma_position(e, k);
    let p = put(e, k, v);
    assert forall|i: int| 0 <= i < p.len() implies (#[trigger] p[i]).0 == text::lowercase(
        p[i].0,
    ) by {
        if i < e.len() && i != crate::pairs::position(e, k) {
            assert(p[i] == e[i]);
        }
    }
    let w = without(e, k);
    assert forall|i: int| 0 <= i < w.len() implies (#[trigger] w[i]).0 == text::lowercase(
        w[i].0,
    ) by {
        if has_key(e, k) {
            if i < crate::pairs::position(e, k) {
                assert(w[i] == e[i]);
            } else {
                assert(w[i] == e[i + 1]);
            }
        }
    }
}

/// A set of headers. Header names do not depend on case: each is kept, and
/// looked up, in lower case.
pub struct Headers {
    map: PairMap,
}

impl View for Headers {
    type V = Entries;

    closed spec fn view(&self) -> Entries {
        self.map@
    }
}

impl Headers {
    /// The invariant of the type: distinct keys, all in lower case.
    #[verifier::type_invariant]
    pub open spec fn wf(&self) -> bool {
        distinct(self@) && folded(self@)
    }

    /// The empty header set.
    pub fn new() -> (h: Self)
        ensures
            h@ == Entries::empty(),
    {
        Headers { map: PairMap::new() }
    }

    /// The number of headers.
    pub fn len(&self) -> (n: usize)
        ensures
            n == self@.len(),
    {
        self.map.len()
    }

    /// The header at position `i`.
    pub fn entry(&self, i: usize) -> (p: &Pair)
        requires
            i < self@.len(),
        ensures
            p@ == self@[i as int],
    {
        self.map.entry(i)
    }

    /// Whether a header of that name is set, whatever the case of `key`.
    pub fn contains_key(&self, key: &str) -> (r: bool)
        ensures
            r == has_key(self@, text::lowercase(key@)),
    {
        let k = text::lowered(key);
        self.map.contains_key(k.as_str())
    }

    /// The value of the header of that name, whatever the case of `key`.
    pub fn get(&self, key: &str) -> (r: Option<&String>)
        ensures
            match r {
                Some(v) => value_of(self@, text::lowercase(key@)) == Some(v@),
                None => value_of(self@, text::lowercase(key@)).is_none(),
            },
    {
        let k = text::lowered(key);
        self.map.get(k.as_str())
    }

    /// Sets the header `key` to `value` and gives back the value it had.
    pub fn insert(&mut self, key: &str, value: String) -> (before: Option<String>)
        ensures
            final(self)@ == put(old(self)@, text::lowercase(key@), value@),
            match before {
                Some(v) => value_of(old(self)@, text::lowercase(key@)) == Some(v@),
                None => value_of(old(self)@, text::lowercase(key@)).is_none(),
            },
    {
        proof {
            use_type_invariant(&*self);
            lemma_lowercase_twice(key@);
        }
        let k = text::lowered(key);
        let mut map = PairMap::new();
        std::mem::swap(&mut map, &mut self.map);
        let before = map.insert(k, value);
        proof {
            use_type_invariant(&map);
            lemma_folded(old(self)@, text::lowercase(key@), value@);
        }
        self.map = map;
        before
    }

    /// Takes the header `key` out and gives back the value it had.
    pub fn remove(&mut self, key: &str) -> (before: Option<String>)
        ensures
            final(self)@ == without(old(self)@, text::lowercase(key@)),
            match before {
                Some(v) => value_of(old(self)@, text::lowercase(key@)) == Some(v@),
                None => value_of(old(self)@, text::lowercase(key@)).is_none(),
            },
    {
        proof {
            use_type_invariant(&*self);
        }
        let k = text::lowered(key);
        let mut map = PairMap::new();
        std::mem::swap(&mut map, &mut self.map);
        let before = map.remove(k.as_str());
        proof {
            use_type_invariant(&map);
            lemma_lowercase_twice(key@);
            lemma_folded(old(self)@, text::lowercase(key@), Seq::<char>::empty());
        }
        self.map = map;
        before
    }

    /// Gives the header at position `i` the value `value`; its name stays.
    pub fn revalue(&mut self, i: usize, value: String)
        requires
            i < old(self)@.len(),
        ensures
            final(self)@ == old(self)@.update(i as int, (old(self)@[i as int].0, value@)),
    {
        proof {
            use_type_invariant(&*self);
        }
        let mut map = PairMap::new();
        std::mem::swap(&mut map, &mut self.map);
        map.revalue(i, value);
        proof {
            use_type_invariant(&map);
        }
        self.map = map;
    }

    /// Reads `input` as `<key>: <value>` and sets that header. An input
    /// without `: ` is refused and changes nothing.
    pub fn set(&mut self, input: &str) -> (r: Result<(), QuartzError>)
        ensures
            match header_of(input@) {
                Some((k, v)) => r.is_ok() && final(self)@ == put(old(self)@, k, v),
                None => r == Err::<(), QuartzError>(QuartzError::MalformedInput) && final(self)@
                    == old(self)@,
            },
    {
        proof {
            reveal_strlit(": ");
            assert(": "@ =~= seq![':', ' ']);
        }
        match text::cut(input, ": ") {
            Some((key, value)) => {
                self.insert(key.as_str(), value);
                Ok(())
            },
            None => Err(QuartzError::MalformedInput),
        }
    }

    /// Sets every header of `over` on this set: values of `over` win on
    /// common names, the other headers stay.
    pub fn merge(&mut self, over: &Headers)
        ensures
            final(self)@ == overlay(old(self)@, over@),
    {
        proof {
            use_type_invariant(over);
        }
        let mut i: usize = 0;
        while i < over.len()
            invariant
                i <= over@.len(),
                folded(over@),
                self@ == overlay(old(self)@, over@.take(i as int)),
            decreases over@.len() - i,
        {
            let p = over.entry(i);
            proof {
                let t = over@.take(i + 1);
                assert(t.drop_last() == over@.take(i as int));
                assert(t.last() == over@[i as int]);
            }
            self.insert(p.key.as_str(), p.value.clone());
            i += 1;
        }
        assert(over@.take(over@.len() as int) == over@);
    }

    /// Adds the headers of `extra` whose name is not set here yet.
    pub fn fill(&mut self, extra: &Headers)
        ensures
            final(self)@ == fill(old(self)@, extra@),
    {
        proof {
            use_type_invariant(extra);
        }
        let mut i: usize = 0;
        while i < extra.len()
            invariant
                i <= extra@.len(),
                folded(extra@),
                self@ == fill(old(self)@, extra@.take(i as int)),
            decreases extra@.len() - i,
        {
            let p = extra.entry(i);
            proof {
                let t = extra@.take(i + 1);
                assert(t.drop_last() == extra@.take(i as int));
                assert(t.last() == extra@[i as int]);
            }
            if !self.contains_key(p.key.as_str()) {
                let ghost before = self@;
                self.insert(p.key.as_str(), p.value.clone());
                assert(self@ == before.push(p@));
            }
            i += 1;
        }
        assert(extra@.take(extra@.len() as int) == extra@);
    }

    /// The text that lists the headers, one `<key>: <value>` a line.
    pub fn render(&self) -> (out: String)
        ensures
            out@ == listing(self@, seq![':', ' ']),
    {
        proof {
            reveal_strlit(": ");
            assert(": "@ =~= seq![':', ' ']);
        }
        self.map.render(": ")
    }
}

impl Clone for Headers {
    fn clone(&self) -> (r: Self)
        ensures
            r@ == self@,
    {
        proof {
            use_type_invariant(self);
        }
        Headers { map: self.map.clone() }
    }
}

} // verus!
