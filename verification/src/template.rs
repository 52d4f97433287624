//! Variable substitution: `{{NAME}}` tokens in a template are replaced by
//! the value that a list of scopes gives to `NAME`.
//!
//! A token is `{{`, then the name, then the first `}}` after it. A token
//! whose name no scope defines is left as it stands. What a value holds is
//! never looked into again.

use vstd::prelude::*;
use vstd::string::StringExecFns;
use crate::pairs::{has_key, value_of, Entries, PairMap};
use crate::text;

verus! {

/// The characters that open a token.
pub open spec fn open_mark() -> Seq<char> {
    seq!['{', '{']
}

/// The characters that close a token.
pub open spec fn close_mark() -> Seq<char> {
    seq!['}', '}']
}

/// The value of `name` in a list of scopes: that of the last scope that
/// defines it.
pub open spec fn lookup(scopes: Seq<Entries>, name: Seq<char>) -> Option<Seq<char>>
    decreases scopes.len(),
{
    if scopes.len() == 0 {
        None
    } else {
        match value_of(scopes.last(), name) {
            Some(v) => Some(v),
            None => lookup(scopes.drop_last(), name),
        }
    }
}

/// The token that starts at position `i` of `t`, if one does: its name and
/// the position just after its closing mark.
pub open spec fn token_at(t: Seq<char>, i: int) -> Option<(Seq<char>, int)> {
    if text::occurs_at(t, open_mark(), i) {
        match text::find(t, close_mark(), i + 2) {
            Some(e) => Some((t.subrange(i + 2, e), e + 2)),
            None => None,
        }
    } else {
        None
    }
}

/// What becomes of `t` from position `i` on.
pub open spec fn substituted_from(t: Seq<char>, scopes: Seq<Entries>, i: int) -> Seq<char>
    decreases t.len() - i,
{
    if i < 0 || i >= t.len() {
        Seq::<char>::empty()
    } else {
        match token_at(t, i) {
            Some((name, end)) => match lookup(scopes, name) {
                Some(v) => if i < end <= t.len() {
                    v + substituted_from(t, scopes, end)
                } else {
                    v
                },
                None => seq![t[i]] + substituted_from(t, scopes, i + 1),
            },
            None => seq![t[i]] + substituted_from(t, scopes, i + 1),
        }
    }
}

/// The template `t` with every token that some scope defines replaced by
/// its value, later scopes before earlier ones.
pub open spec fn substituted(t: Seq<char>, scopes: Seq<Entries>) -> Seq<char> {
    substituted_from(t, scopes, 0)
}

/// The models of a list of scopes.
pub open spec fn models(scopes: Seq<&PairMap>) -> Seq<Entries> {
    scopes.map_values(|m: &PairMap| m@)
}

/// The value of `name`: that of the last scope that defines it.
pub fn value_in<'a>(scopes: &Vec<&'a PairMap>, name: &str) -> (r: Option<&'a String>)
    ensures
        match r {
            Some(v) => lookup(models(scopes@), name@) == Some(v@),
            None => lookup(models(scopes@), name@).is_none(),
        },
{
    let mut i: usize = scopes.len();
    let ghost all = models(scopes@);
    assert(all.take(all.len() as int) == all);
    while i > 0
        invariant
            i <= scopes.len(),
            all == models(scopes@),
            lookup(all, name@) == lookup(all.take(i as int), name@),
        decreases i,
    {
        i -= 1;
        proof {
            let t = all.take(i + 1);
            assert(t.last() == scopes@[i as int]@);
            assert(t.drop_last() == all.take(i as int));
        }
        match scopes[i].get(name) {
            Some(v) => {
                return Some(v);
            },
            None => {},
        }
    }
    None
}

/// The template with every token that some scope defines replaced by its
/// value. Later scopes win over earlier ones; a token that no scope
/// defines stays as it is written.
pub fn substitute(template: &str, scopes: &Vec<&PairMap>) -> (out: String)
    ensures
        out@ == substituted(template@, models(scopes@)),
{
    let t = text::chars_of(template);
    let mut close: Vec<char> = Vec::new();
    close.push('}');
    close.push('}');
    assert(close@ =~= close_mark());
    let mut out = String::new();
    let mut i: usize = 0;
    let ghost all = models(scopes@);
    while i < t.len()
        invariant
            i <= t.len(),
            t@ == template@,
            close@ == close_mark(),
            all == models(scopes@),
            substituted(t@, all) == out@ + substituted_from(t@, all, i as int),
        decreases t.len() - i,
    {
        let mut done = false;
        if t[i] == '{' && i + 1 < t.len() && t[i + 1] == '{' {
            assert(t@.subrange(i as int, i + 2) =~= open_mark());
            match text::find_from(&t, &close, i + 2) {
                Some(e) => {
                    proof {
                        text::lemma_find_first(t@, close@, i + 2);
                    }
                    let name = text::string_of_range(&t, i + 2, e);
                    match value_in(scopes, name.as_str()) {
                        Some(v) => {
                            proof {
                                assert(out@ + (v@ + substituted_from(t@, all, e + 2)) == (out@
                                    + v@) + substituted_from(t@, all, e + 2));
                            }
                            out.append(v.as_str());
                            i = e + 2;
                            done = true;
                        },
                        None => {},
                    }
                },
                None => {},
            }
        } else {
            proof {
                if text::occurs_at(t@, open_mark(), i as int) {
                    let w = t@.subrange(i as int, i + 2);
                    assert(w[0] == t@[i as int]);
                    assert(w[1] == t@[i + 1]);
                }
            }
        }
        if !done {
            proof {
                assert(out@ + (seq![t@[i as int]] + substituted_from(t@, all, i + 1)) == out@.push(
                    t@[i as int],
                ) + substituted_from(t@, all, i + 1));
            }
            let mut one: Vec<char> = Vec::new();
            one.push(t[i]);
            let piece = text::string_of(&one);
            assert(piece@ =~= seq![t@[i as int]]);
            assert(out@ + piece@ =~= out@.push(t@[i as int]));
            out.append(piece.as_str());
            i += 1;
        }
    }
    assert(out@ + Seq::<char>::empty() == out@);
    out
}

/// Of two scopes that both define a key, the later one gives the value.
pub proof fn lemma_later_scope_wins(a: Entries, b: Entries, k: Seq<char>)
    requires
        has_key(a, k),
        has_key(b, k),
    ensures
        lookup(seq![a, b], k) == value_of(b, k),
{
    assert(seq![a, b].last() == b);
}

/// A key that only the earlier of two scopes defines keeps that scope's
/// value.
pub proof fn lemma_earlier_scope_stays(a: Entries, b: Entries, k: Seq<char>)
    requires
        !has_key(b, k),
    ensures
        lookup(seq![a, b], k) == value_of(a, k),
{
    let s = seq![a, b];
    assert(s.last() == b);
    assert(s.drop_last() =~= seq![a]);
    assert(seq![a].last() == a);
    assert(seq![a].drop_last() =~= Seq::<Entries>::empty());
    assert(lookup(Seq::<Entries>::empty(), k).is_none());
    assert(lookup(seq![a], k) == value_of(a, k));
}

/// A template that is one token, whose name holds no `}`, becomes the
/// value that the scopes give to the name; with scopes `[a, b]` that both
/// define it, the value of `b`.
pub proof fn lemma_token_replaced(scopes: Seq<Entries>, k: Seq<char>)
    requires
        !k.contains('}'),
        lookup(scopes, k).is_some(),
    ensures
        substituted(open_mark() + k + close_mark(), scopes) == lookup(scopes, k).unwrap(),
{
    let t = open_mark() + k + close_mark();
    let e: int = (2 + k.len()) as int;
    assert(t.subrange(0, 2) =~= open_mark());
    assert(t.subrange(e, e + 2) =~= close_mark());
    assert forall|j: int| 2 <= j < e implies !text::occurs_at(t, close_mark(), j) by {
        if text::occurs_at(t, close_mark(), j) {
            let w = t.subrange(j, j + 2);
            assert(w[0] == t[j]);
            assert(t[j] == k[j - 2]);
            assert(k.contains('}'));
        }
    }
    text::lemma_find_is(t, close_mark(), 2, e);
    assert(t.subrange(2, e) =~= k);
    assert(token_at(t, 0) == Some((k, e + 2)));
    assert(substituted_from(t, scopes, e + 2) == Seq::<char>::empty());
    assert(lookup(scopes, k).unwrap() + Seq::<char>::empty() == lookup(scopes, k).unwrap());
}

/// With no scope at all, substitution leaves every template as it is.
pub proof fn lemma_no_scopes_identity(t: Seq<char>)
    ensures
        substituted(t, Seq::<Entries>::empty()) == t,
{
    lemma_rest_unchanged(t, Seq::<Entries>::empty(), 0);
    assert(t.skip(0) == t);
}

/// A template in which `{{` occurs nowhere holds no token, and substitution
/// leaves it as it is, whatever the scopes.
pub proof fn lemma_no_tokens_identity(t: Seq<char>, scopes: Seq<Entries>)
    requires
        forall|i: int| !text::occurs_at(t, open_mark(), i),
    ensures
        substituted(t, scopes) == t,
{
    lemma_rest_unchanged(t, scopes, 0);
    assert(t.skip(0) == t);
}

proof fn lemma_rest_unchanged(t: Seq<char>, scopes: Seq<Entries>, i: int)
    requires
        0 <= i <= t.len(),
        scopes.len() == 0 || forall|j: int| !text::occurs_at(t, open_mark(), j),
    ensures
        substituted_from(t, scopes, i) == t.skip(i),
    decreases t.len() - i,
{
    if i < t.len() {
        lemma_rest_unchanged(t, scopes, i + 1);
        assert(seq![t[i]] + t.skip(i + 1) =~= t.skip(i));
    } else {
        assert(t.skip(i) =~= Seq::<char>::empty());
    }
}

} // verus!
