//! The cookie jar: cookies keyed by domain and name, and the text in which
//! a jar is kept on file.
//!
//! A jar file holds one cookie a line: domain, name and value with a tab
//! between them. So a domain or a name with a tab or a line break in it,
//! and a value with a line break in it, cannot be kept, and the jar never
//! takes one in.

use vstd::prelude::*;
use vstd::string::StringExecFns;
use crate::error::QuartzError;
use crate::text;

verus! {

/// The model of a cookie.
pub struct CookieView {
    pub domain: Seq<char>,
    pub name: Seq<char>,
    pub value: Seq<char>,
}

/// The model of a jar: its cookies in the order in which their keys first
/// came in.
pub type Cookies = Seq<CookieView>;

/// A cookie.
pub struct Cookie {
    pub domain: String,
    pub name: String,
    pub value: String,
}

impl View for Cookie {
    type V = CookieView;

    open spec fn view(&self) -> CookieView {
        CookieView { domain: self.domain@, name: self.name@, value: self.value@ }
    }
}

impl Clone for Cookie {
    fn clone(&self) -> (r: Self)
        ensures
            r@ == self@,
    {
        Cookie { domain: self.domain.clone(), name: self.name.clone(), value: self.value.clone() }
    }
}

/// Whether the cookie can be kept in a jar file.
pub open spec fn is_clean(c: CookieView) -> bool {
    &&& !c.domain.contains('\t')
    &&& !c.domain.contains('\n')
    &&& !c.name.contains('\t')
    &&& !c.name.contains('\n')
    &&& !c.value.contains('\n')
}

/// Whether every cookie of `cs` can be kept in a jar file.
pub open spec fn all_clean(cs: Cookies) -> bool {
    forall|i: int| 0 <= i < cs.len() ==> is_clean(#[trigger] cs[i])
}

/// The position of the first cookie with that domain and name, or the
/// length of `cs` if there is none.
pub open spec fn slot(cs: Cookies, domain: Seq<char>, name: Seq<char>) -> int
    decreases cs.len(),
{
    if cs.len() == 0 {
        0
    } else if cs[0].domain == domain && cs[0].name == name {
        0
    } else {
        1 + slot(cs.drop_first(), domain, name)
    }
}

/// The value of the cookie with that domain and name.
pub open spec fn cookie_value(cs: Cookies, domain: Seq<char>, name: Seq<char>) -> Option<Seq<char>> {
    if slot(cs, domain, name) < cs.len() {
        Some(cs[slot(cs, domain, name)].value)
    } else {
        None
    }
}

/// Whether no two cookies of `cs` have the same domain and name.
pub open spec fn distinct_cookies(cs: Cookies) -> bool {
    forall|i: int, j: int|
        0 <= i < j < cs.len() ==> !((#[trigger] cs[i]).domain == (#[trigger] cs[j]).domain
            && cs[i].name == cs[j].name)
}

/// `cs` with the cookie `c` set: in the place of the one with its domain
/// and name where there is one, at the end where there is none.
pub open spec fn put_cookie(cs: Cookies, c: CookieView) -> Cookies {
    if slot(cs, c.domain, c.name) < cs.len() {
        cs.update(slot(cs, c.domain, c.name), c)
    } else {
        cs.push(c)
    }
}

/// `base` with every cookie of `more` set on it, in order.
pub open spec fn union(base: Cookies, more: Cookies) -> Cookies
    decreases more.len(),
{
    if more.len() == 0 {
        base
    } else {
        put_cookie(union(base, more.drop_last()), more.last())
    }
}

/// The line of a jar file that holds the cookie, without its line break.
pub open spec fn line_of(c: CookieView) -> Seq<char> {
    c.domain + seq!['\t'] + c.name + seq!['\t'] + c.value
}

/// The text of the jar file that holds the cookies.
pub open spec fn jar_text(cs: Cookies) -> Seq<char>
    decreases cs.len(),
{
    if cs.len() == 0 {
        Seq::<char>::empty()
    } else {
        jar_text(cs.drop_last()) + line_of(cs.last()) + seq!['\n']
    }
}

/// The cookie that a line of a jar file holds: what stands before the
/// first tab is the domain, what stands between the first and the second
/// tab is the name, the rest is the value.
pub open spec fn cookie_of_line(line: Seq<char>) -> Option<CookieView> {
    match text::split_once(line, seq!['\t']) {
        Some((domain, rest)) => match text::split_once(rest, seq!['\t']) {
            Some((name, value)) => Some(CookieView { domain, name, value }),
            None => None,
        },
        None => None,
    }
}

/// The cookies that the lines hold, a later line winning over an earlier
/// one with the same domain and name. Empty lines hold nothing; any other
/// line that holds no cookie spoils the whole.
pub open spec fn cookies_of_lines(lines: Seq<Seq<char>>) -> Option<Cookies>
    decreases lines.len(),
{
    if lines.len() == 0 {
        Some(Cookies::empty())
    } else {
        match cookies_of_lines(lines.drop_last()) {
            Some(cs) => if lines.last().len() == 0 {
                Some(cs)
            } else {
                match cookie_of_line(lines.last()) {
                    Some(c) => Some(put_cookie(cs, c)),
                    None => None,
                }
            },
            None => None,
        }
    }
}

/// The cookies that the text of a jar file holds.
pub open spec fn parse_jar(text: Seq<char>) -> Option<Cookies> {
    cookies_of_lines(text::split(text, '\n'))
}

/// The name and the value that a `Set-Cookie` header gives: what stands
/// before the first `;`, cut at its first `=`, each side trimmed. A header
/// without `=` there gives no cookie.
pub open spec fn cookie_pair(header: Seq<char>) -> Option<(Seq<char>, Seq<char>)> {
    match text::split_once(text::split(header, ';')[0], seq!['=']) {
        Some((name, value)) => Some((text::trim(name), text::trim(value))),
        None => None,
    }
}

/// What `slot` finds: the first cookie with that domain and name, if
/// there is one.
pub proof fn lemma_slot(cs: Cookies, domain: Seq<char>, name: Seq<char>)
    ensures
        0 <= slot(cs, domain, name) <= cs.len(),
        slot(cs, domain, name) < cs.len() ==> cs[slot(cs, domain, name)].domain == domain
            && cs[slot(cs, domain, name)].name == name,
        forall|j: int|
            0 <= j < slot(cs, domain, name) ==> !(cs[j].domain == domain && cs[j].name == name),
    decreases cs.len(),
{
    if cs.len() > 0 && !(cs[0].domain == domain && cs[0].name == name) {
        let t = cs.drop_first();
        lemma_slot(t, domain, name);
        assert forall|j: int| 0 <= j < slot(cs, domain, name) implies !(cs[j].domain == domain
            && cs[j].name == name) by {
            if j > 0 {
                assert(t[j - 1] == cs[j]);
            }
        }
    }
}

/// A position with that domain and name before which none has them is the
/// one that `slot` gives; so is the length where none has them.
pub proof fn lemma_slot_is(cs: Cookies, domain: Seq<char>, name: Seq<char>, i: int)
    requires
        0 <= i <= cs.len(),
        i < cs.len() ==> cs[i].domain == domain && cs[i].name == name,
        forall|j: int| 0 <= j < i ==> !(cs[j].domain == domain && cs[j].name == name),
    ensures
        slot(cs, domain, name) == i,
{
    lemma_slot(cs, domain, name);
}

/// Setting a cookie keeps the keys distinct and the jar fit for a file,
/// gives the key the new value and leaves the other cookies alone.
pub proof fn lemma_put_cookie(cs: Cookies, c: CookieView)
    requires
        distinct_cookies(cs),
    ensures
        distinct_cookies(put_cookie(cs, c)),
        all_clean(cs) && is_clean(c) ==> all_clean(put_cookie(cs, c)),
        cookie_value(put_cookie(cs, c), c.domain, c.name) == Some(c.value),
        forall|d: Seq<char>, n: Seq<char>|
            !(d == c.domain && n == c.name) ==> cookie_value(put_cookie(cs, c), d, n)
                == cookie_value(cs, d, n),
        put_cookie(cs, c).len() == if cookie_value(cs, c.domain, c.name).is_some() {
            cs.len()
        } else {
            cs.len() + 1
        },
{
    let p = put_cookie(cs, c);
    lemma_slot(cs, c.domain, c.name);
    let i = slot(cs, c.domain, c.name);
    assert(p[i] == c);
    lemma_slot_is(p, c.domain, c.name, i);
    assert forall|d: Seq<char>, n: Seq<char>| !(d == c.domain && n == c.name) implies cookie_value(
        p,
        d,
        n,
    ) == cookie_value(cs, d, n) by {
        lemma_slot(cs, d, n);
        let j = slot(cs, d, n);
        if j < cs.len() {
            assert(p[j] == cs[j]);
        }
        lemma_slot_is(p, d, n, if j < cs.len() { j } else { p.len() as int });
    }
    if all_clean(cs) && is_clean(c) {
        assert forall|j: int| 0 <= j < p.len() implies is_clean(#[trigger] p[j]) by {
            if j != i {
                assert(p[j] == cs[j]);
            }
        }
    }
}

/// The cookie jar.
pub struct CookieJar {
    cookies: Vec<Cookie>,
}

/// The cookies that a list stands for.
pub open spec fn jar_model(v: Seq<Cookie>) -> Cookies {
    v.map_values(|c: Cookie| c@)
}

impl View for CookieJar {
    type V = Cookies;

    closed spec fn view(&self) -> Cookies {
        jar_model(self.cookies@)
    }
}

/// Whether none of the characters of `s` is `a` or `b`.
fn free_of(s: &str, a: char, b: char) -> (r: bool)
    ensures
        r == (!s@.contains(a) && !s@.contains(b)),
{
    !text::has_char(s, a) && !text::has_char(s, b)
}

impl CookieJar {
    /// The invariant of the type: one cookie for a domain and a name, and
    /// nothing that a jar file cannot hold.
    #[verifier::type_invariant]
    pub open spec fn wf(&self) -> bool {
        distinct_cookies(self@) && all_clean(self@)
    }

    /// The empty jar.
    pub fn new() -> (jar: Self)
        ensures
            jar@ == Cookies::empty(),
    {
        let jar = CookieJar { cookies: Vec::new() };
        assert(jar@ =~= Cookies::empty());
        jar
    }

    /// The number of cookies.
    pub fn len(&self) -> (n: usize)
        ensures
            n == self@.len(),
    {
        self.cookies.len()
    }

    /// The cookie at position `i`.
    pub fn entry(&self, i: usize) -> (c: &Cookie)
        requires
            i < self@.len(),
        ensures
            c@ == self@[i as int],
    {
        &self.cookies[i]
    }

    fn index_of(&self, domain: &String, name: &String) -> (i: usize)
        ensures
            i == slot(self@, domain@, name@),
            i <= self@.len(),
    {
        let mut i: usize = 0;
        while i < self.cookies.len()
            invariant
                i <= self.cookies.len(),
                forall|j: int|
                    0 <= j < i ==> !(self@[j].domain == domain@ && self@[j].name == name@),
            decreases self.cookies.len() - i,
        {
            if self.cookies[i].domain == *domain && self.cookies[i].name == *name {
                proof {
                    lemma_slot_is(self@, domain@, name@, i as int);
                }
                return i;
            }
            i += 1;
        }
        proof {
            lemma_slot_is(self@, domain@, name@, i as int);
        }
        i
    }

    /// The value of the cookie with that domain and name.
    pub fn get(&self, domain: &str, name: &str) -> (r: Option<&String>)
        ensures
            match r {
                Some(v) => cookie_value(self@, domain@, name@) == Some(v@),
                None => cookie_value(self@, domain@, name@).is_none(),
            },
    {
        let d = domain.to_owned();
        let n = name.to_owned();
        let i = self.index_of(&d, &n);
        if i < self.cookies.len() {
            Some(&self.cookies[i].value)
        } else {
            None
        }
    }

    /// Sets the cookie: it takes the place of the one with its domain and
    /// name, if there is one. A cookie that a jar file cannot hold is
    /// refused and changes nothing.
    pub fn insert(&mut self, cookie: Cookie) -> (r: Result<(), QuartzError>)
        ensures
            r.is_ok() <==> is_clean(cookie@),
            match r {
                Ok(_) => final(self)@ == put_cookie(old(self)@, cookie@),
                Err(e) => e == QuartzError::MalformedInput && final(self)@ == old(self)@,
            },
    {
        if !free_of(cookie.domain.as_str(), '\t', '\n') || !free_of(
            cookie.name.as_str(),
            '\t',
            '\n',
        ) || text::has_char(cookie.value.as_str(), '\n') {
            return Err(QuartzError::MalformedInput);
        }
        proof {
            use_type_invariant(&*self);
            lemma_put_cookie(self@, cookie@);
        }
        let i = self.index_of(&cookie.domain, &cookie.name);
        let ghost goal = put_cookie(self@, cookie@);
        let mut cookies: Vec<Cookie> = Vec::new();
        std::mem::swap(&mut cookies, &mut self.cookies);
        if i < cookies.len() {
            cookies.remove(i);
            cookies.insert(i, cookie);
        } else {
            cookies.push(cookie);
        }
        assert(jar_model(cookies@) =~= goal);
        self.cookies = cookies;
        Ok(())
    }

    /// Takes in the cookie that a `Set-Cookie` header gives for `domain`.
    /// A header that gives none, or one that a jar file cannot hold,
    /// changes nothing.
    pub fn set(&mut self, domain: &str, header: &str) -> (r: Result<(), QuartzError>)
        ensures
            match cookie_pair(header@) {
                Some((name, value)) => {
                    let c = CookieView { domain: domain@, name, value };
                    if is_clean(c) {
                        r.is_ok() && final(self)@ == put_cookie(old(self)@, c)
                    } else {
                        r == Err::<(), QuartzError>(QuartzError::MalformedInput) && final(self)@
                            == old(self)@
                    }
                },
                None => r == Err::<(), QuartzError>(QuartzError::MalformedInput) && final(self)@
                    == old(self)@,
            },
    {
        proof {
            reveal_strlit("=");
            assert("="@ =~= seq!['=']);
            text::lemma_split_some(header@, ';');
        }
        let parts = text::fields(header, ';');
        assert(parts.deep_view()[0] == parts[0]@);
        match text::cut(parts[0].as_str(), "=") {
            Some((name, value)) => {
                let cookie = Cookie {
                    domain: domain.to_owned(),
                    name: text::trimmed(name.as_str()),
                    value: text::trimmed(value.as_str()),
                };
                self.insert(cookie)
            },
            None => Err(QuartzError::MalformedInput),
        }
    }

    /// Sets every cookie of `more` on this jar.
    pub fn merge(&mut self, more: &CookieJar)
        ensures
            final(self)@ == union(old(self)@, more@),
    {
        proof {
            use_type_invariant(more);
        }
        let mut i: usize = 0;
        while i < more.len()
            invariant
                i <= more@.len(),
                all_clean(more@),
                self@ == union(old(self)@, more@.take(i as int)),
            decreases more@.len() - i,
        {
            let c = more.entry(i).clone();
            proof {
                let t = more@.take(i + 1);
                assert(t.drop_last() == more@.take(i as int));
                assert(t.last() == more@[i as int]);
            }
            let _ = self.insert(c);
            i += 1;
        }
        assert(more@.take(more@.len() as int) == more@);
    }

    /// The text of the jar file that holds the jar.
    pub fn render(&self) -> (out: String)
        ensures
            out@ == jar_text(self@),
    {
        let mut out = String::new();
        let mut i: usize = 0;
        proof {
            reveal_strlit("\n");
            reveal_strlit("\t");
            assert("\n"@ =~= seq!['\n']);
            assert("\t"@ =~= seq!['\t']);
            assert(self@.take(0) == Cookies::empty());
        }
        while i < self.cookies.len()
            invariant
                i <= self.cookies.len(),
                "\n"@ == seq!['\n'],
                "\t"@ == seq!['\t'],
                out@ == jar_text(self@.take(i as int)),
            decreases self.cookies.len() - i,
        {
            proof {
                let t = self@.take(i + 1);
                assert(t.drop_last() == self@.take(i as int));
                assert(t.last() == self@[i as int]);
            }
            let ghost before = out@;
            out.append(self.cookies[i].domain.as_str());
            out.append("\t");
            out.append(self.cookies[i].name.as_str());
            out.append("\t");
            out.append(self.cookies[i].value.as_str());
            out.append("\n");
            proof {
                let c = self@[i as int];
                assert(out@ =~= before + line_of(c) + seq!['\n']);
            }
            i += 1;
        }
        assert(self@.take(self@.len() as int) == self@);
        out
    }

    /// The jar that the text of a jar file holds. A line that is not
    /// empty and holds no cookie makes the file unreadable.
    pub fn parse(text: &str) -> (r: Result<CookieJar, QuartzError>)
        ensures
            match r {
                Ok(jar) => parse_jar(text@) == Some(jar@),
                Err(e) => e == QuartzError::MalformedInput && parse_jar(text@).is_none(),
            },
    {
        proof {
            reveal_strlit("\t");
            assert("\t"@ =~= seq!['\t']);
            text::lemma_split_fields(text@, '\n');
        }
        let lines = text::fields(text, '\n');
        let mut jar = CookieJar::new();
        let mut i: usize = 0;
        let ghost all = lines.deep_view();
        assert(all.take(0) == Seq::<Seq<char>>::empty());
        while i < lines.len()
            invariant
                i <= lines.len(),
                all == lines.deep_view(),
                all == text::split(text@, '\n'),
                "\t"@ == seq!['\t'],
                forall|k: int, c: char|
                    #![trigger all[k].contains(c)]
                    0 <= k < all.len() && all[k].contains(c) ==> c != '\n',
                cookies_of_lines(all.take(i as int)) == Some(jar@),
            decreases lines.len() - i,
        {
            let line = lines[i].as_str();
            proof {
                let t = all.take(i + 1);
                assert(t.drop_last() == all.take(i as int));
                assert(t.last() == all[i as int]);
                assert(line@ == all[i as int]);
            }
            if line.unicode_len() > 0 {
                match text::cut(line, "\t") {
                    Some((domain, rest)) => match text::cut(rest.as_str(), "\t") {
                        Some((name, value)) => {
                            proof {
                                text::lemma_split_once(line@, '\t');
                                text::lemma_split_once(rest@, '\t');
                                lemma_parts_clean(line@, domain@, rest@, name@, value@);
                            }
                            let _ = jar.insert(Cookie { domain, name, value });
                        },
                        None => {
                            proof {
                                lemma_spoiled(all, i as int);
                            }
                            return Err(QuartzError::MalformedInput);
                        },
                    },
                    None => {
                        proof {
                            lemma_spoiled(all, i as int);
                        }
                        return Err(QuartzError::MalformedInput);
                    },
                }
            }
            i += 1;
        }
        assert(all.take(all.len() as int) == all);
        Ok(jar)
    }

    /// The cookies as they stand in a `Cookie` header: `<name>=<value>`
    /// for each, in order.
    pub fn pairs(&self) -> (out: Vec<String>)
        ensures
            out.deep_view() == self@.map_values(|c: CookieView| pair_text(c)),
    {
        let mut out: Vec<String> = Vec::new();
        let mut i: usize = 0;
        proof {
            reveal_strlit("=");
            assert("="@ =~= seq!['=']);
        }
        while i < self.cookies.len()
            invariant
                i <= self.cookies.len(),
                "="@ == seq!['='],
                out.deep_view() == self@.take(i as int).map_values(|c: CookieView| pair_text(c)),
            decreases self.cookies.len() - i,
        {
            let mut pair = self.cookies[i].name.clone();
            pair.append("=");
            pair.append(self.cookies[i].value.as_str());
            let ghost before = out.deep_view();
            out.push(pair);
            proof {
                assert(out.deep_view() =~= before.push(pair@));
                assert(pair@ == pair_text(self@[i as int]));
                assert(before.push(pair@) =~= self@.take(i + 1).map_values(
                    |c: CookieView| pair_text(c),
                ));
            }
            i += 1;
        }
        assert(self@.take(self@.len() as int) == self@);
        out
    }
}

/// A cookie as it stands in a `Cookie` header.
pub open spec fn pair_text(c: CookieView) -> Seq<char> {
    c.name + seq!['='] + c.value
}

/// Once a line that is not empty holds no cookie, the lines hold no jar.
proof fn lemma_spoiled(lines: Seq<Seq<char>>, i: int)
    requires
        0 <= i < lines.len(),
        lines[i].len() > 0,
        cookie_of_line(lines[i]).is_none(),
    ensures
        cookies_of_lines(lines).is_none(),
    decreases lines.len(),
{
    if i < lines.len() - 1 {
        lemma_spoiled(lines.drop_last(), i);
    }
}

/// The parts that two cuts at a tab make of a line without a line break
/// are a cookie that a jar file can hold.
proof fn lemma_parts_clean(
    line: Seq<char>,
    domain: Seq<char>,
    rest: Seq<char>,
    name: Seq<char>,
    value: Seq<char>,
)
    requires
        !line.contains('\n'),
        !domain.contains('\t'),
        !name.contains('\t'),
        line == domain + seq!['\t'] + rest,
        rest == name + seq!['\t'] + value,
    ensures
        is_clean(CookieView { domain, name, value }),
{
    assert forall|j: int| 0 <= j < domain.len() implies domain[j] != '\n' by {
        assert(line[j] == domain[j]);
    }
    assert forall|j: int| 0 <= j < name.len() implies name[j] != '\n' by {
        assert(line[domain.len() + 1 + j] == name[j]);
    }
    assert forall|j: int| 0 <= j < value.len() implies value[j] != '\n' by {
        assert(line[domain.len() + 1 + name.len() + 1 + j] == value[j]);
    }
}

/// The line that holds a cookie holds that cookie and no other.
pub proof fn lemma_line_round_trip(c: CookieView)
    requires
        is_clean(c),
    ensures
        line_of(c).len() > 0,
        !line_of(c).contains('\n'),
        cookie_of_line(line_of(c)) == Some(c),
{
    let tab = seq!['\t'];
    let line = line_of(c);
    let rest = c.name + tab + c.value;
    assert(line =~= c.domain + tab + rest);
    let d = c.domain.len() as int;
    assert(line.subrange(d, d + 1) =~= tab);
    assert forall|j: int| 0 <= j < d implies !text::occurs_at(line, tab, j) by {
        if text::occurs_at(line, tab, j) {
            assert(line.subrange(j, j + 1)[0] == c.domain[j]);
            assert(c.domain.contains('\t'));
        }
    }
    text::lemma_find_is(line, tab, 0, d);
    assert(line.take(d) =~= c.domain);
    assert(line.skip(d + 1) =~= rest);
    let n = c.name.len() as int;
    assert(rest.subrange(n, n + 1) =~= tab);
    assert forall|j: int| 0 <= j < n implies !text::occurs_at(rest, tab, j) by {
        if text::occurs_at(rest, tab, j) {
            assert(rest.subrange(j, j + 1)[0] == c.name[j]);
            assert(c.name.contains('\t'));
        }
    }
    text::lemma_find_is(rest, tab, 0, n);
    assert(rest.take(n) =~= c.name);
    assert(rest.skip(n + 1) =~= c.value);
    assert forall|j: int| 0 <= j < line.len() implies line[j] != '\n' by {
        if j < d {
            assert(c.domain[j] == line[j]);
        } else if j == d {
        } else if j < d + 1 + n {
            assert(c.name[j - d - 1] == line[j]);
        } else if j == d + 1 + n {
        } else {
            assert(c.value[j - d - n - 2] == line[j]);
        }
    }
}

/// The lines of a jar file: one for each cookie, and an empty field behind
/// the last line break.
pub proof fn lemma_jar_lines(cs: Cookies)
    requires
        all_clean(cs),
    ensures
        text::split(jar_text(cs), '\n') == cs.map_values(|c: CookieView| line_of(c)).push(
            Seq::<char>::empty(),
        ),
    decreases cs.len(),
{
    let lines = cs.map_values(|c: CookieView| line_of(c));
    if cs.len() == 0 {
        assert(lines.push(Seq::<char>::empty()) =~= seq![Seq::<char>::empty()]);
    } else {
        let rest = cs.drop_last();
        let c = cs.last();
        lemma_jar_lines(rest);
        lemma_line_round_trip(c);
        let before = jar_text(rest);
        text::lemma_split_append(before, line_of(c), '\n');
        let full = before + line_of(c) + seq!['\n'];
        assert(full.drop_last() == before + line_of(c));
        assert(full.last() == '\n');
        let f = text::split(before, '\n');
        assert(f.last() + line_of(c) == line_of(c)) by {
            assert(f.last() == Seq::<char>::empty());
            assert(Seq::<char>::empty() + line_of(c) =~= line_of(c));
        }
        assert(f.update(f.len() - 1, line_of(c)).push(Seq::<char>::empty()) =~= lines.push(
            Seq::<char>::empty(),
        ));
    }
}

/// The lines written for a jar hold that jar.
pub proof fn lemma_lines_round_trip(cs: Cookies)
    requires
        distinct_cookies(cs),
        all_clean(cs),
    ensures
        cookies_of_lines(cs.map_values(|c: CookieView| line_of(c))) == Some(cs),
    decreases cs.len(),
{
    let lines = cs.map_values(|c: CookieView| line_of(c));
    if cs.len() > 0 {
        let rest = cs.drop_last();
        let c = cs.last();
        lemma_lines_round_trip(rest);
        lemma_line_round_trip(c);
        assert(lines.drop_last() =~= rest.map_values(|c: CookieView| line_of(c)));
        assert(lines.last() == line_of(c));
        assert forall|j: int| 0 <= j < rest.len() implies !(rest[j].domain == c.domain
            && rest[j].name == c.name) by {
            assert(rest[j] == cs[j]);
            assert(cs[cs.len() - 1] == c);
        }
        lemma_slot_is(rest, c.domain, c.name, rest.len() as int);
        assert(rest.push(c) =~= cs);
    } else {
        assert(lines =~= Seq::<Seq<char>>::empty());
    }
}

/// A jar written to a file and read back is the same jar.
pub proof fn lemma_jar_round_trip(cs: Cookies)
    requires
        distinct_cookies(cs),
        all_clean(cs),
    ensures
        parse_jar(jar_text(cs)) == Some(cs),
{
    lemma_jar_lines(cs);
    lemma_lines_round_trip(cs);
    let lines = cs.map_values(|c: CookieView| line_of(c));
    let all = lines.push(Seq::<char>::empty());
    assert(all.drop_last() =~= lines);
}

/// Of two cookies set one after the other for the same domain and name,
/// only the second is kept: the jar gives its value, and holds no more
/// cookies than after the first.
pub proof fn lemma_latest_cookie_kept(cs: Cookies, first: CookieView, second: CookieView)
    requires
        distinct_cookies(cs),
        first.domain == second.domain,
        first.name == second.name,
    ensures
        cookie_value(put_cookie(put_cookie(cs, first), second), second.domain, second.name)
            == Some(second.value),
        put_cookie(put_cookie(cs, first), second).len() == put_cookie(cs, first).len(),
        put_cookie(put_cookie(cs, first), second) == put_cookie(cs, second),
{
    lemma_put_cookie(cs, first);
    let once = put_cookie(cs, first);
    lemma_put_cookie(once, second);
    lemma_slot(cs, first.domain, first.name);
    let i = slot(cs, first.domain, first.name);
    assert(once[i] == first);
    lemma_slot_is(once, second.domain, second.name, i);
    assert(put_cookie(once, second) =~= put_cookie(cs, second));
}

impl Clone for CookieJar {
    fn clone(&self) -> (r: Self)
        ensures
            r@ == self@,
    {
        proof {
            use_type_invariant(self);
        }
        let mut cookies: Vec<Cookie> = Vec::new();
        let mut i: usize = 0;
        assert(jar_model(cookies@) =~= self@.take(0));
        while i < self.cookies.len()
            invariant
                i <= self.cookies.len(),
                jar_model(cookies@) == self@.take(i as int),
            decreases self.cookies.len() - i,
        {
            let c = self.cookies[i].clone();
            let ghost before = jar_model(cookies@);
            cookies.push(c);
            assert(jar_model(cookies@) =~= before.push(c@));
            assert(before.push(self@[i as int]) =~= self@.take(i + 1));
            i += 1;
        }
        assert(self@.take(self@.len() as int) == self@);
        CookieJar { cookies }
    }
}

} // verus!
