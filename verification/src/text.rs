//! Text primitives over sequences of characters.
//!
//! Every string the library handles is modelled as a `Seq<char>`. The
//! functions here are the only ones that look inside a string; the other
//! modules state their contracts over the spec functions defined here.

use vstd::prelude::*;
use vstd::string::StringExecFns;

verus! {

/// Whether `c` has the Unicode `White_Space` property.
pub open spec fn is_whitespace(c: char) -> bool {
    ||| '\u{9}' <= c <= '\u{d}'
    ||| c == ' '
    ||| c == '\u{85}'
    ||| c == '\u{a0}'
    ||| c == '\u{1680}'
    ||| '\u{2000}' <= c <= '\u{200a}'
    ||| c == '\u{2028}'
    ||| c == '\u{2029}'
    ||| c == '\u{202f}'
    ||| c == '\u{205f}'
    ||| c == '\u{3000}'
}

/// `s` without its leading whitespace.
pub open spec fn trim_start(s: Seq<char>) -> Seq<char>
    decreases s.len(),
{
    if s.len() > 0 && is_whitespace(s[0]) {
        trim_start(s.drop_first())
    } else {
        s
    }
}

/// `s` without its trailing whitespace.
pub open spec fn trim_end(s: Seq<char>) -> Seq<char>
    decreases s.len(),
{
    if s.len() > 0 && is_whitespace(s.last()) {
        trim_end(s.drop_last())
    } else {
        s
    }
}

/// `s` without leading and trailing whitespace (line breaks included).
pub open spec fn trim(s: Seq<char>) -> Seq<char> {
    trim_start(trim_end(s))
}

/// Whether `needle` occurs in `hay` at position `i`.
pub open spec fn occurs_at(hay: Seq<char>, needle: Seq<char>, i: int) -> bool {
    &&& 0 <= i
    &&& i + needle.len() <= hay.len()
    &&& hay.subrange(i, i + needle.len()) == needle
}

/// The first position at or after `from` where `needle` occurs in `hay`.
pub open spec fn find(hay: Seq<char>, needle: Seq<char>, from: int) -> Option<int>
    decreases hay.len() - from,
{
    if from < 0 || from + needle.len() > hay.len() {
        None
    } else if occurs_at(hay, needle, from) {
        Some(from)
    } else if from < hay.len() {
        find(hay, needle, from + 1)
    } else {
        None
    }
}

/// `s` cut at the first occurrence of `sep`: what stands before it and what
/// stands after it.
pub open spec fn split_once(s: Seq<char>, sep: Seq<char>) -> Option<(Seq<char>, Seq<char>)> {
    match find(s, sep, 0) {
        Some(i) => Some((s.take(i), s.skip(i + sep.len()))),
        None => None,
    }
}

/// The fields of `s` between occurrences of the character `sep`. There is
/// always at least one field; two adjacent separators enclose an empty one.
pub open spec fn split(s: Seq<char>, sep: char) -> Seq<Seq<char>>
    decreases s.len(),
{
    if s.len() == 0 {
        seq![Seq::<char>::empty()]
    } else {
        let rest = split(s.drop_last(), sep);
        if s.last() == sep {
            rest.push(Seq::<char>::empty())
        } else {
            rest.update(rest.len() - 1, rest.last().push(s.last()))
        }
    }
}

/// The parts written one after another with `sep` between each two.
pub open spec fn join(parts: Seq<Seq<char>>, sep: Seq<char>) -> Seq<char>
    decreases parts.len(),
{
    if parts.len() == 0 {
        Seq::<char>::empty()
    } else if parts.len() == 1 {
        parts[0]
    } else {
        join(parts.drop_last(), sep) + sep + parts.last()
    }
}

/// The lower-case form of an ASCII letter; any other character unchanged.
pub open spec fn lower(c: char) -> char {
    if 'A' <= c <= 'Z' {
        ((c as u8) + 32) as char
    } else {
        c
    }
}

/// `s` with every ASCII letter in lower case.
pub open spec fn lowercase(s: Seq<char>) -> Seq<char> {
    s.map_values(|c: char| lower(c))
}

/// `s` with every character that is `a` or `b` replaced by `by`.
pub open spec fn replace_either(s: Seq<char>, a: char, b: char, by: char) -> Seq<char> {
    s.map_values(|c: char| if c == a || c == b { by } else { c })
}

/// `s` without the run of `c` at its start and the run of `c` at its end.
pub open spec fn strip(s: Seq<char>, c: char) -> Seq<char> {
    strip_start(strip_end(s, c), c)
}

/// `s` without the run of `c` at its start.
pub open spec fn strip_start(s: Seq<char>, c: char) -> Seq<char>
    decreases s.len(),
{
    if s.len() > 0 && s[0] == c {
        strip_start(s.drop_first(), c)
    } else {
        s
    }
}

/// `s` without the run of `c` at its end.
pub open spec fn strip_end(s: Seq<char>, c: char) -> Seq<char>
    decreases s.len(),
{
    if s.len() > 0 && s.last() == c {
        strip_end(s.drop_last(), c)
    } else {
        s
    }
}

/// The characters of `s`, in order.
pub fn chars_of(s: &str) -> (out: Vec<char>)
    ensures
        out@ == s@,
{
    broadcast use vstd::string::group_string_axioms;

    let mut out: Vec<char> = Vec::new();
    for c in it: s.chars()
        invariant
            it.seq() == s@,
            out@ == s@.take(it.index()),
    {
        out.push(c);
    }
    out
}

/// Appends one character to a string: `String::push` of the standard
/// library, which is taken to add exactly that character at the end.
#[verifier::external_body]
fn push_char(s: &mut String, c: char)
    ensures
        final(s)@ == old(s)@.push(c),
{
    s.push(c)
}

/// The string made of `v[from..to]`.
pub fn string_of_range(v: &Vec<char>, from: usize, to: usize) -> (out: String)
    requires
        from <= to <= v.len(),
    ensures
        out@ == v@.subrange(from as int, to as int),
{
    let mut out = String::new();
    let mut i: usize = from;
    while i < to
        invariant
            from <= i <= to <= v.len(),
            out@ == v@.subrange(from as int, i as int),
        decreases to - i,
    {
        push_char(&mut out, v[i]);
        i += 1;
    }
    out
}

/// The string made of the characters of `v`.
pub fn string_of(v: &Vec<char>) -> (out: String)
    ensures
        out@ == v@,
{
    let out = string_of_range(v, 0, v.len());
    assert(v@.subrange(0, v.len() as int) == v@);
    out
}

/// Whether two strings hold the same characters.
pub fn same(a: &str, b: &str) -> (r: bool)
    ensures
        r == (a@ == b@),
{
    let x = a.to_owned();
    let y = b.to_owned();
    x == y
}

/// Whether `c` is a white-space character.
pub fn is_space(c: char) -> (r: bool)
    ensures
        r == is_whitespace(c),
{
    (c >= '\u{9}' && c <= '\u{d}') || c == ' ' || c == '\u{85}' || c == '\u{a0}' || c
        == '\u{1680}' || (c >= '\u{2000}' && c <= '\u{200a}') || c == '\u{2028}' || c
        == '\u{2029}' || c == '\u{202f}' || c == '\u{205f}' || c == '\u{3000}'
}

proof fn lemma_trim_end_range(s: Seq<char>, b: int)
    requires
        0 <= b <= s.len(),
        forall|j: int| b <= j < s.len() ==> is_whitespace(s[j]),
        b > 0 ==> !is_whitespace(s[b - 1]),
    ensures
        trim_end(s) == s.take(b),
    decreases s.len() - b,
{
    if b == s.len() {
        assert(s.take(b) == s);
    } else {
        let t = s.drop_last();
        lemma_trim_end_range(t, b);
        assert(t.take(b) == s.take(b));
    }
}

proof fn lemma_trim_start_range(s: Seq<char>, a: int)
    requires
        0 <= a <= s.len(),
        forall|j: int| 0 <= j < a ==> is_whitespace(s[j]),
        a < s.len() ==> !is_whitespace(s[a]),
    ensures
        trim_start(s) == s.skip(a),
    decreases a,
{
    if a == 0 {
        assert(s.skip(0) == s);
    } else {
        let t = s.drop_first();
        lemma_trim_start_range(t, a - 1);
        assert(t.skip(a - 1) == s.skip(a));
    }
}

/// `s` without leading and trailing whitespace.
pub fn trimmed(s: &str) -> (out: String)
    ensures
        out@ == trim(s@),
{
    let v = chars_of(s);
    let mut b: usize = v.len();
    while b > 0 && is_space(v[b - 1])
        invariant
            b <= v.len(),
            forall|j: int| b <= j < v.len() ==> is_whitespace(v@[j]),
        decreases b,
    {
        b -= 1;
    }
    let mut a: usize = 0;
    while a < b && is_space(v[a])
        invariant
            a <= b <= v.len(),
            forall|j: int| 0 <= j < a ==> is_whitespace(v@[j]),
        decreases b - a,
    {
        a += 1;
    }
    proof {
        lemma_trim_end_range(v@, b as int);
        let e = v@.take(b as int);
        lemma_trim_start_range(e, a as int);
        assert(e.skip(a as int) == v@.subrange(a as int, b as int));
    }
    string_of_range(&v, a, b)
}

/// A name as it is stored: line breaks at its end and whitespace around it
/// are dropped.
pub fn trim_newline(s: &str) -> (out: String)
    ensures
        out@ == trim(s@),
{
    trimmed(s)
}

/// Whether the characters of `needle` stand in `hay` from position `i` on.
fn matches_at(hay: &Vec<char>, needle: &Vec<char>, i: usize) -> (r: bool)
    requires
        i + needle.len() <= hay.len(),
    ensures
        r == occurs_at(hay@, needle@, i as int),
{
    let mut k: usize = 0;
    while k < needle.len()
        invariant
            k <= needle.len(),
            i + needle.len() <= hay.len(),
            forall|j: int| 0 <= j < k ==> hay@[i + j] == needle@[j],
        decreases needle.len() - k,
    {
        if hay[i + k] != needle[k] {
            proof {
                let w = hay@.subrange(i as int, i + needle.len());
                assert(w[k as int] == hay@[i + k]);
            }
            return false;
        }
        k += 1;
    }
    assert(hay@.subrange(i as int, i + needle.len()) =~= needle@);
    true
}

/// The first position at or after `from` where `needle` occurs in `hay`.
pub fn find_from(hay: &Vec<char>, needle: &Vec<char>, from: usize) -> (r: Option<usize>)
    ensures
        match r {
            Some(i) => find(hay@, needle@, from as int) == Some(i as int),
            None => find(hay@, needle@, from as int).is_none(),
        },
{
    if needle.len() > hay.len() || from > hay.len() - needle.len() {
        return None;
    }
    let last: usize = hay.len() - needle.len();
    let mut i: usize = from;
    loop
        invariant
            from <= i <= last,
            last == hay.len() - needle.len(),
            find(hay@, needle@, from as int) == find(hay@, needle@, i as int),
        decreases last - i,
    {
        if matches_at(hay, needle, i) {
            return Some(i);
        }
        if i == last {
            assert(find(hay@, needle@, i + 1).is_none());
            return None;
        }
        i += 1;
    }
}

/// What `find` promises of the position it gives: the needle stands there
/// and nowhere earlier.
pub proof fn lemma_find_first(hay: Seq<char>, needle: Seq<char>, from: int)
    requires
        0 <= from,
    ensures
        match find(hay, needle, from) {
            Some(i) => from <= i && occurs_at(hay, needle, i) && forall|j: int|
                from <= j < i ==> !occurs_at(hay, needle, j),
            None => forall|j: int| from <= j ==> !occurs_at(hay, needle, j),
        },
    decreases hay.len() - from,
{
    if from + needle.len() > hay.len() {
    } else if occurs_at(hay, needle, from) {
    } else if from < hay.len() {
        lemma_find_first(hay, needle, from + 1);
    } else {
        assert(hay.subrange(from, from + needle.len()) =~= needle);
    }
}

/// A position where the needle stands, with none between `from` and it,
/// is the one that `find` gives.
pub proof fn lemma_find_is(hay: Seq<char>, needle: Seq<char>, from: int, at: int)
    requires
        0 <= from <= at,
        occurs_at(hay, needle, at),
        forall|j: int| from <= j < at ==> !occurs_at(hay, needle, j),
    ensures
        find(hay, needle, from) == Some(at),
    decreases at - from,
{
    if from < at {
        lemma_find_is(hay, needle, from + 1, at);
    }
}

/// `s` cut at the first occurrence of `sep`.
pub fn cut(s: &str, sep: &str) -> (r: Option<(String, String)>)
    ensures
        match r {
            Some((a, b)) => split_once(s@, sep@) == Some((a@, b@)),
            None => split_once(s@, sep@).is_none(),
        },
{
    let v = chars_of(s);
    let n = chars_of(sep);
    match find_from(&v, &n, 0) {
        Some(i) => {
            proof {
                lemma_find_first(v@, n@, 0);
                assert(find(v@, n@, 0) == Some(i as int));
                assert(occurs_at(v@, n@, i as int));
                assert(i + n@.len() <= v@.len());
            }
            assert(i + n.len() <= v.len());
            let a = string_of_range(&v, 0, i);
            let b = string_of_range(&v, i + n.len(), v.len());
            Some((a, b))
        },
        None => None,
    }
}

/// Whether the character `c` stands anywhere in `s`.
pub fn has_char(s: &str, c: char) -> (r: bool)
    ensures
        r == s@.contains(c),
{
    let v = chars_of(s);
    let mut i: usize = 0;
    while i < v.len()
        invariant
            i <= v.len(),
            v@ == s@,
            forall|j: int| 0 <= j < i ==> v@[j] != c,
        decreases v.len() - i,
    {
        if v[i] == c {
            assert(s@[i as int] == c);
            assert(s@.contains(c));
            return true;
        }
        i += 1;
    }
    false
}

/// The fields of `s` between occurrences of `sep`.
pub fn fields(s: &str, sep: char) -> (out: Vec<String>)
    ensures
        out.deep_view() == split(s@, sep),
{
    let v = chars_of(s);
    let mut out: Vec<String> = Vec::new();
    let mut start: usize = 0;
    let mut i: usize = 0;
    proof {
        assert(v@.take(0) == Seq::<char>::empty());
        assert(v@.subrange(0, 0) == Seq::<char>::empty());
        assert(out.deep_view() == Seq::<Seq<char>>::empty());
        assert(Seq::<Seq<char>>::empty().push(Seq::<char>::empty()) == seq![Seq::<char>::empty()]);
    }
    while i < v.len()
        invariant
            start <= i <= v.len(),
            split(v@.take(i as int), sep) == out.deep_view().push(
                v@.subrange(start as int, i as int),
            ),
        decreases v.len() - i,
    {
        proof {
            let t = v@.take(i + 1);
            assert(t.drop_last() == v@.take(i as int));
            assert(t.last() == v@[i as int]);
        }
        if v[i] == sep {
            let field = string_of_range(&v, start, i);
            let ghost before = out.deep_view();
            out.push(field);
            start = i + 1;
            proof {
                assert(out.deep_view() == before.push(field@));
                assert(v@.subrange(start as int, start as int) == Seq::<char>::empty());
            }
        } else {
            proof {
                let rest = out.deep_view().push(v@.subrange(start as int, i as int));
                assert(v@.subrange(start as int, i as int).push(v@[i as int]) == v@.subrange(
                    start as int,
                    i + 1,
                ));
                assert(rest.update(rest.len() - 1, rest.last().push(v@[i as int]))
                    == out.deep_view().push(v@.subrange(start as int, i + 1)));
            }
        }
        i += 1;
    }
    let field = string_of_range(&v, start, v.len());
    let ghost before = out.deep_view();
    out.push(field);
    proof {
        assert(out.deep_view() == before.push(field@));
        assert(v@.take(v.len() as int) == v@);
    }
    out
}

/// The parts written one after another with `sep` between each two.
pub fn joined(parts: &Vec<String>, sep: &str) -> (out: String)
    ensures
        out@ == join(parts.deep_view(), sep@),
{
    let mut out = String::new();
    let mut i: usize = 0;
    while i < parts.len()
        invariant
            i <= parts.len(),
            out@ == join(parts.deep_view().take(i as int), sep@),
        decreases parts.len() - i,
    {
        proof {
            let t = parts.deep_view().take(i + 1);
            assert(t.drop_last() == parts.deep_view().take(i as int));
            assert(t.last() == parts[i as int]@);
            if i == 0 {
                assert(Seq::<char>::empty() + parts[0]@ == parts[0]@);
            }
        }
        if i > 0 {
            out.append(sep);
        }
        out.append(parts[i].as_str());
        i += 1;
    }
    assert(parts.deep_view().take(parts.len() as int) == parts.deep_view());
    out
}

/// The lower-case form of an ASCII letter; any other character unchanged.
pub fn lower_char(c: char) -> (r: char)
    ensures
        r == lower(c),
{
    if c >= 'A' && c <= 'Z' {
        let b: u8 = c as u8;
        (b + 32) as char
    } else {
        c
    }
}

/// `s` with every ASCII letter in lower case.
pub fn lowered(s: &str) -> (out: String)
    ensures
        out@ == lowercase(s@),
{
    let v = chars_of(s);
    let mut out = String::new();
    let mut i: usize = 0;
    while i < v.len()
        invariant
            i <= v.len(),
            out@ == lowercase(v@.take(i as int)),
        decreases v.len() - i,
    {
        push_char(&mut out, lower_char(v[i]));
        i += 1;
        assert(lowercase(v@.take(i as int)) =~= lowercase(v@.take(i - 1)).push(lower(v@[i - 1])));
    }
    assert(v@.take(v.len() as int) == v@);
    out
}

/// `s` with every character that is `a` or `b` replaced by `by`.
pub fn replaced(s: &str, a: char, b: char, by: char) -> (out: String)
    ensures
        out@ == replace_either(s@, a, b, by),
{
    let v = chars_of(s);
    let mut out = String::new();
    let mut i: usize = 0;
    while i < v.len()
        invariant
            i <= v.len(),
            out@ == replace_either(v@.take(i as int), a, b, by),
        decreases v.len() - i,
    {
        let c = v[i];
        push_char(&mut out, if c == a || c == b { by } else { c });
        i += 1;
        assert(replace_either(v@.take(i as int), a, b, by) =~= replace_either(
            v@.take(i - 1),
            a,
            b,
            by,
        ).push(if v@[i - 1] == a || v@[i - 1] == b { by } else { v@[i - 1] }));
    }
    assert(v@.take(v.len() as int) == v@);
    out
}

proof fn lemma_strip_end_range(s: Seq<char>, c: char, b: int)
    requires
        0 <= b <= s.len(),
        forall|j: int| b <= j < s.len() ==> s[j] == c,
        b > 0 ==> s[b - 1] != c,
    ensures
        strip_end(s, c) == s.take(b),
    decreases s.len() - b,
{
    if b == s.len() {
        assert(s.take(b) == s);
    } else {
        let t = s.drop_last();
        lemma_strip_end_range(t, c, b);
        assert(t.take(b) == s.take(b));
    }
}

proof fn lemma_strip_start_range(s: Seq<char>, c: char, a: int)
    requires
        0 <= a <= s.len(),
        forall|j: int| 0 <= j < a ==> s[j] == c,
        a < s.len() ==> s[a] != c,
    ensures
        strip_start(s, c) == s.skip(a),
    decreases a,
{
    if a == 0 {
        assert(s.skip(0) == s);
    } else {
        let t = s.drop_first();
        lemma_strip_start_range(t, c, a - 1);
        assert(t.skip(a - 1) == s.skip(a));
    }
}

/// `s` without the run of `c` at its start and the run of `c` at its end.
pub fn stripped(s: &str, c: char) -> (out: String)
    ensures
        out@ == strip(s@, c),
{
    let v = chars_of(s);
    let mut b: usize = v.len();
    while b > 0 && v[b - 1] == c
        invariant
            b <= v.len(),
            forall|j: int| b <= j < v.len() ==> v@[j] == c,
        decreases b,
    {
        b -= 1;
    }
    let mut a: usize = 0;
    while a < b && v[a] == c
        invariant
            a <= b <= v.len(),
            forall|j: int| 0 <= j < a ==> v@[j] == c,
        decreases b - a,
    {
        a += 1;
    }
    proof {
        lemma_strip_end_range(v@, c, b as int);
        let e = v@.take(b as int);
        lemma_strip_start_range(e, c, a as int);
        assert(e.skip(a as int) == v@.subrange(a as int, b as int));
    }
    string_of_range(&v, a, b)
}

/// The character that writes the digit `d`.
pub open spec fn digit(d: nat) -> char {
    (48 + d) as char
}

/// Whether `c` is one of the ten decimal digits.
pub open spec fn is_digit(c: char) -> bool {
    '0' <= c <= '9'
}

/// The decimal notation of `n`, without sign or leading zeros.
pub open spec fn decimal(n: nat) -> Seq<char>
    decreases n,
{
    if n < 10 {
        seq![digit(n)]
    } else {
        decimal(n / 10).push(digit(n % 10))
    }
}

/// The number that a run of decimal digits writes.
pub open spec fn digits_value(s: Seq<char>) -> nat
    decreases s.len(),
{
    if s.len() == 0 {
        0
    } else {
        digits_value(s.drop_last()) * 10 + (s.last() as nat - 48) as nat
    }
}

/// Whether `s` is made of decimal digits only.
pub open spec fn all_digits(s: Seq<char>) -> bool {
    forall|i: int| 0 <= i < s.len() ==> is_digit(#[trigger] s[i])
}

/// The number that `s` writes in decimal: one digit or more, after an
/// optional `+`. Anything else writes no number.
pub open spec fn parse_decimal(s: Seq<char>) -> Option<nat> {
    let d = if s.len() > 0 && s[0] == '+' {
        s.drop_first()
    } else {
        s
    };
    if d.len() > 0 && all_digits(d) {
        Some(digits_value(d))
    } else {
        None
    }
}

/// A number written in decimal and read back is the same number.
pub proof fn lemma_decimal_round_trip(n: nat)
    ensures
        decimal(n).len() > 0,
        all_digits(decimal(n)),
        digits_value(decimal(n)) == n,
        parse_decimal(decimal(n)) == Some(n),
    decreases n,
{
    let s = decimal(n);
    if n < 10 {
        assert(s.drop_last() =~= Seq::<char>::empty());
        assert(digits_value(s.drop_last()) == 0);
    } else {
        lemma_decimal_round_trip(n / 10);
        let rest = decimal(n / 10);
        assert(s.drop_last() =~= rest);
        assert(s.last() == digit(n % 10));
        assert forall|i: int| 0 <= i < s.len() implies is_digit(#[trigger] s[i]) by {
            if i < rest.len() {
                assert(s[i] == rest[i]);
            }
        }
    }
    assert(s[0] != '+');
}

fn push_decimal(n: u64, out: &mut String)
    ensures
        final(out)@ == old(out)@ + decimal(n as nat),
    decreases n,
{
    if n >= 10 {
        push_decimal(n / 10, out);
    }
    let d: u8 = (n % 10) as u8;
    push_char(out, (48 + d) as char);
    proof {
        if n < 10 {
            assert(old(out)@.push(digit(n as nat)) == old(out)@ + seq![digit(n as nat)]);
        } else {
            assert((old(out)@ + decimal(n as nat / 10)).push(digit(n as nat % 10)) == old(out)@
                + decimal(n as nat / 10).push(digit(n as nat % 10)));
        }
    }
}

/// The decimal notation of `n`.
pub fn decimal_string(n: u64) -> (out: String)
    ensures
        out@ == decimal(n as nat),
{
    let mut out = String::new();
    push_decimal(n, &mut out);
    assert(Seq::<char>::empty() + decimal(n as nat) == decimal(n as nat));
    out
}

proof fn lemma_digits_value_grows(s: Seq<char>, k: int)
    requires
        0 <= k <= s.len(),
    ensures
        digits_value(s.take(k)) <= digits_value(s),
    decreases s.len() - k,
{
    if k == s.len() {
        assert(s.take(k) == s);
    } else {
        lemma_digits_value_grows(s.drop_last(), k);
        assert(s.drop_last().take(k) == s.take(k));
    }
}

/// The number that `s` writes in decimal, if it writes one that fits.
pub fn parse_u64(s: &str) -> (r: Option<u64>)
    ensures
        r == match parse_decimal(s@) {
            Some(n) => if n <= u64::MAX {
                Some(n as u64)
            } else {
                None
            },
            None => None,
        },
{
    let v = chars_of(s);
    let start: usize = if v.len() > 0 && v[0] == '+' {
        1
    } else {
        0
    };
    let ghost d = v@.skip(start as int);
    let ghost goal = parse_decimal(s@);
    assert(d == if s@.len() > 0 && s@[0] == '+' {
        s@.drop_first()
    } else {
        s@
    });
    if start == v.len() {
        return None;
    }
    let mut acc: u64 = 0;
    let mut i: usize = start;
    assert(d.take(0) == Seq::<char>::empty());
    while i < v.len()
        invariant
            start <= i <= v.len(),
            d == v@.skip(start as int),
            d.len() > 0,
            goal == parse_decimal(s@),
            goal == if all_digits(d) {
                Some(digits_value(d))
            } else {
                None
            },
            all_digits(d.take(i - start)),
            acc == digits_value(d.take(i - start)),
        decreases v.len() - i,
    {
        let c = v[i];
        assert(d[i - start] == c);
        if !(c >= '0' && c <= '9') {
            assert(!is_digit(d[i - start]));
            return None;
        }
        let digit: u64 = ((c as u8) - 48) as u64;
        proof {
            let t = d.take(i + 1 - start);
            assert(t.drop_last() == d.take(i - start));
            assert(t.last() == c);
            assert(digits_value(t) == acc * 10 + digit);
            lemma_digits_value_grows(d, i + 1 - start);
        }
        if acc > (u64::MAX - digit) / 10 {
            return None;
        }
        acc = acc * 10 + digit;
        i += 1;
    }
    assert(d.take(v.len() - start) == d);
    Some(acc)
}

/// Whether `s` has no whitespace at its start or at its end.
pub open spec fn is_trimmed(s: Seq<char>) -> bool {
    s.len() == 0 || (!is_whitespace(s[0]) && !is_whitespace(s.last()))
}

proof fn lemma_trim_end_prefix(s: Seq<char>)
    ensures
        trim_end(s).len() <= s.len(),
        trim_end(s) == s.take(trim_end(s).len() as int),
        trim_end(s).len() > 0 ==> !is_whitespace(trim_end(s).last()),
    decreases s.len(),
{
    if s.len() > 0 && is_whitespace(s.last()) {
        let t = s.drop_last();
        lemma_trim_end_prefix(t);
        assert(t.take(trim_end(t).len() as int) == s.take(trim_end(t).len() as int));
    } else {
        assert(s.take(s.len() as int) == s);
    }
}

proof fn lemma_trim_start_suffix(s: Seq<char>)
    ensures
        trim_start(s).len() <= s.len(),
        trim_start(s) == s.skip(s.len() - trim_start(s).len()),
        trim_start(s).len() > 0 ==> !is_whitespace(trim_start(s)[0]),
    decreases s.len(),
{
    if s.len() > 0 && is_whitespace(s[0]) {
        let t = s.drop_first();
        lemma_trim_start_suffix(t);
        assert(t.skip(t.len() - trim_start(t).len()) == s.skip(s.len() - trim_start(t).len()));
    } else {
        assert(s.skip(0) == s);
    }
}

/// A trimmed string is a stretch of the string it was made from, and has no
/// whitespace at either end.
pub proof fn lemma_trim(s: Seq<char>) -> (r: (int, int))
    ensures
        0 <= r.0 <= r.1 <= s.len(),
        trim(s) == s.subrange(r.0, r.1),
        is_trimmed(trim(s)),
        trim(trim(s)) == trim(s),
{
    let e = trim_end(s);
    lemma_trim_end_prefix(s);
    let t = trim_start(e);
    lemma_trim_start_suffix(e);
    let a = e.len() - t.len();
    let b = e.len() as int;
    assert(e.skip(a) == s.subrange(a, b));
    if t.len() > 0 {
        assert(t.last() == e.last());
        lemma_trim_end_range(t, t.len() as int);
        assert(t.take(t.len() as int) == t);
        lemma_trim_start_range(t, 0);
        assert(t.skip(0) == t);
    }
    (a, b)
}

/// Trimming a string that is trimmed already changes nothing.
pub proof fn lemma_trim_of_trimmed(s: Seq<char>)
    requires
        is_trimmed(s),
    ensures
        trim(s) == s,
{
    if s.len() > 0 {
        lemma_trim_end_range(s, s.len() as int);
        assert(s.take(s.len() as int) == s);
        lemma_trim_start_range(s, 0);
        assert(s.skip(0) == s);
    }
}

/// Characters other than the separator, written behind a text, lengthen its
/// last field.
pub proof fn lemma_split_append(s: Seq<char>, x: Seq<char>, sep: char)
    requires
        !x.contains(sep),
    ensures
        split(s, sep).len() > 0,
        split(s + x, sep) == split(s, sep).update(
            split(s, sep).len() - 1,
            split(s, sep).last() + x,
        ),
    decreases x.len(),
{
    lemma_split_some(s, sep);
    let f = split(s, sep);
    if x.len() == 0 {
        assert(s + x == s);
        assert(f.last() + x == f.last());
        assert(f.update(f.len() - 1, f.last()) == f);
    } else {
        let y = x.drop_last();
        assert forall|c: char| y.contains(c) implies x.contains(c) by {
            let i = choose|i: int| 0 <= i < y.len() && y[i] == c;
            assert(x[i] == c);
        }
        lemma_split_append(s, y, sep);
        assert((s + x).drop_last() == s + y);
        assert((s + x).last() == x.last());
        assert(x.contains(x.last()));
        assert(f.last() + y + seq![x.last()] == f.last() + x) by {
            assert(y + seq![x.last()] == x);
            assert(f.last() + y + seq![x.last()] == f.last() + (y + seq![x.last()]));
        }
        assert((f.last() + y).push(x.last()) == f.last() + y + seq![x.last()]);
    }
}

/// A text always has one field or more.
pub proof fn lemma_split_some(s: Seq<char>, sep: char)
    ensures
        split(s, sep).len() > 0,
    decreases s.len(),
{
    if s.len() > 0 {
        lemma_split_some(s.drop_last(), sep);
    }
}

/// No field of a text holds the separator, and every character of a field
/// is a character of the text.
pub proof fn lemma_split_fields(s: Seq<char>, sep: char)
    ensures
        forall|i: int, c: char|
            #![trigger split(s, sep)[i].contains(c)]
            0 <= i < split(s, sep).len() && split(s, sep)[i].contains(c) ==> c != sep
                && s.contains(c),
    decreases s.len(),
{
    let f = split(s, sep);
    if s.len() == 0 {
        assert forall|i: int, c: char|
            #![trigger f[i].contains(c)]
            0 <= i < f.len() implies !f[i].contains(c) by {}
    } else {
        let t = s.drop_last();
        let g = split(t, sep);
        lemma_split_fields(t, sep);
        lemma_split_some(t, sep);
        assert forall|c: char| t.contains(c) implies s.contains(c) by {
            let j = choose|j: int| 0 <= j < t.len() && t[j] == c;
            assert(s[j] == c);
        }
        assert(s.contains(s.last())) by {
            assert(s[s.len() - 1] == s.last());
        }
        assert forall|i: int, c: char|
            #![trigger f[i].contains(c)]
            0 <= i < f.len() && f[i].contains(c) implies (c != sep && s.contains(c)) by {
            let j = choose|j: int| 0 <= j < f[i].len() && f[i][j] == c;
            if s.last() == sep {
                if i < g.len() {
                    assert(f[i] == g[i]);
                    assert(g[i].contains(c));
                }
            } else if i < g.len() - 1 {
                assert(f[i] == g[i]);
                assert(g[i].contains(c));
            } else {
                if j < g.last().len() {
                    assert(g.last()[j] == c);
                    assert(g[g.len() - 1].contains(c));
                }
            }
        }
    }
}

/// What a cut at a one-character separator gives: the part before holds no
/// separator, and the two parts with the separator between them are the
/// text.
pub proof fn lemma_split_once(s: Seq<char>, sep: char)
    ensures
        match split_once(s, seq![sep]) {
            Some((a, b)) => !a.contains(sep) && s == a + seq![sep] + b,
            None => !s.contains(sep),
        },
{
    lemma_find_first(s, seq![sep], 0);
    assert forall|j: int| 0 <= j < s.len() && s[j] == sep implies occurs_at(
        s,
        seq![sep],
        j,
    ) by {
        assert(s.subrange(j, j + 1) =~= seq![sep]);
    }
    match find(s, seq![sep], 0) {
        Some(i) => {
            let a = s.take(i);
            let b = s.skip(i + 1);
            assert(s.subrange(i, i + 1)[0] == s[i]);
            assert(s =~= a + seq![sep] + b);
            assert forall|j: int| 0 <= j < a.len() implies a[j] != sep by {
                assert(a[j] == s[j]);
            }
        },
        None => {},
    }
}

} // verus!
