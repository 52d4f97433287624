//! Variable scopes: named sets of variables and headers, with a cookie jar,
//! and the store that keeps them by name.

use vstd::prelude::*;
use vstd::string::StringExecFns;
use crate::cookie::{CookieJar, Cookies};
use crate::error::QuartzError;
use crate::headers::Headers;
use crate::pairs::{overlay, Entries, PairMap};
use crate::text;

verus! {

/// The model of a scope.
pub struct EnvView {
    pub name: Seq<char>,
    pub variables: Entries,
    pub headers: Entries,
    pub cookies: Cookies,
}

/// A named scope: variables to fill into requests, headers to send along,
/// and the cookies collected under it.
pub struct Env {
    pub name: String,
    pub variables: PairMap,
    pub headers: Headers,
    pub cookies: CookieJar,
}

/// A context is a scope like an environment; the two kinds are kept apart
/// by the store they live in.
pub type Context = Env;

impl View for Env {
    type V = EnvView;

    open spec fn view(&self) -> EnvView {
        EnvView {
            name: self.name@,
            variables: self.variables@,
            headers: self.headers@,
            cookies: self.cookies@,
        }
    }
}

/// The scope of that name with nothing in it.
pub open spec fn empty_env(name: Seq<char>) -> EnvView {
    EnvView {
        name,
        variables: Entries::empty(),
        headers: Entries::empty(),
        cookies: Cookies::empty(),
    }
}

/// The name of the scope that is in use where none was chosen.
pub open spec fn default_name() -> Seq<char> {
    "default"@
}

impl Env {
    /// The scope of that name, with nothing in it. The name is taken
    /// without the whitespace and line breaks around it.
    pub fn new(name: &str) -> (env: Self)
        ensures
            env@ == empty_env(text::trim(name@)),
    {
        Env {
            name: text::trim_newline(name),
            variables: PairMap::new(),
            headers: Headers::new(),
            cookies: CookieJar::new(),
        }
    }
}

impl Clone for Env {
    fn clone(&self) -> (r: Self)
        ensures
            r@ == self@,
    {
        Env {
            name: self.name.clone(),
            variables: self.variables.clone(),
            headers: self.headers.clone(),
            cookies: self.cookies.clone(),
        }
    }
}

impl Default for Env {
    fn default() -> (env: Self)
        ensures
            env@ == empty_env(default_name()),
    {
        Env {
            name: String::from_str("default"),
            variables: PairMap::new(),
            headers: Headers::new(),
            cookies: CookieJar::new(),
        }
    }
}

/// The model of a store: its scopes in the order in which they were made.
pub type Envs = Seq<EnvView>;

/// The position of the scope of that name, or the length of `es` if there
/// is none.
pub open spec fn env_slot(es: Envs, name: Seq<char>) -> int
    decreases es.len(),
{
    if es.len() == 0 {
        0
    } else if es[0].name == name {
        0
    } else {
        1 + env_slot(es.drop_first(), name)
    }
}

/// Whether the store has a scope of that name.
pub open spec fn has_env(es: Envs, name: Seq<char>) -> bool {
    env_slot(es, name) < es.len()
}

/// The scope of that name.
pub open spec fn env_of(es: Envs, name: Seq<char>) -> Option<EnvView> {
    if has_env(es, name) {
        Some(es[env_slot(es, name)])
    } else {
        None
    }
}

/// Whether no two scopes have the same name.
pub open spec fn distinct_names(es: Envs) -> bool {
    forall|i: int, j: int| 0 <= i < j < es.len() ==> (#[trigger] es[i]).name != (#[trigger] es[j]).name
}

/// `es` with the scope `e` in the place of the one of its name, or at the
/// end where there is none.
pub open spec fn put_env(es: Envs, e: EnvView) -> Envs {
    if has_env(es, e.name) {
        es.update(env_slot(es, e.name), e)
    } else {
        es.push(e)
    }
}

/// `es` without the scope of that name.
pub open spec fn without_env(es: Envs, name: Seq<char>) -> Envs {
    if has_env(es, name) {
        es.remove(env_slot(es, name))
    } else {
        es
    }
}

/// The scope `dest` after the variables of `src` were copied into it:
/// those of `src` win on common keys, the others of `dest` stay.
pub open spec fn copied_into(src: EnvView, dest: EnvView) -> EnvView {
    EnvView { variables: overlay(dest.variables, src.variables), ..dest }
}

/// What `env_slot` finds: the first scope of that name, if there is one.
pub proof fn lemma_env_slot(es: Envs, name: Seq<char>)
    ensures
        0 <= env_slot(es, name) <= es.len(),
        env_slot(es, name) < es.len() ==> es[env_slot(es, name)].name == name,
        forall|j: int| 0 <= j < env_slot(es, name) ==> es[j].name != name,
    decreases es.len(),
{
    if es.len() > 0 && es[0].name != name {
        let t = es.drop_first();
        lemma_env_slot(t, name);
        assert forall|j: int| 0 <= j < env_slot(es, name) implies es[j].name != name by {
            if j > 0 {
                assert(t[j - 1] == es[j]);
            }
        }
    }
}

/// A position with that name before which none has it is the one that
/// `env_slot` gives; so is the length where none has it.
pub proof fn lemma_env_slot_is(es: Envs, name: Seq<char>, i: int)
    requires
        0 <= i <= es.len(),
        i < es.len() ==> es[i].name == name,
        forall|j: int| 0 <= j < i ==> es[j].name != name,
    ensures
        env_slot(es, name) == i,
{
    lemma_env_slot(es, name);
}

/// Setting a scope keeps the names distinct, makes it the scope of its
/// name and leaves the others alone; so does taking one out.
pub proof fn lemma_put_env(es: Envs, e: EnvView)
    requires
        distinct_names(es),
    ensures
        distinct_names(put_env(es, e)),
        env_of(put_env(es, e), e.name) == Some(e),
        forall|o: Seq<char>| o != e.name ==> env_of(put_env(es, e), o) == env_of(es, o),
{
    let p = put_env(es, e);
    lemma_env_slot(es, e.name);
    let i = env_slot(es, e.name);
    assert(p[i] == e);
    lemma_env_slot_is(p, e.name, i);
    assert forall|o: Seq<char>| o != e.name implies env_of(p, o) == env_of(es, o) by {
        lemma_env_slot(es, o);
        let j = env_slot(es, o);
        if j < es.len() {
            assert(p[j] == es[j]);
        }
        lemma_env_slot_is(p, o, if j < es.len() { j } else { p.len() as int });
    }
}

/// Taking a scope out keeps the names distinct, leaves no scope of that
/// name and leaves the others alone.
pub proof fn lemma_without_env(es: Envs, name: Seq<char>)
    requires
        distinct_names(es),
    ensures
        distinct_names(without_env(es, name)),
        env_of(without_env(es, name), name).is_none(),
        forall|o: Seq<char>| o != name ==> env_of(without_env(es, name), o) == env_of(es, o),
{
    let w = without_env(es, name);
    lemma_env_slot(es, name);
    let i = env_slot(es, name);
    if i < es.len() {
        assert forall|a: int| 0 <= a < w.len() implies #[trigger] w[a] == es[if a < i {
            a
        } else {
            a + 1
        }] by {}
        assert forall|a: int| 0 <= a < w.len() implies w[a].name != name by {
            assert(w[a] == es[if a < i { a } else { a + 1 }]);
        }
        lemma_env_slot_is(w, name, w.len() as int);
        assert forall|o: Seq<char>| o != name implies env_of(w, o) == env_of(es, o) by {
            lemma_env_slot(es, o);
            let j = env_slot(es, o);
            let k = if j < i { j } else if j < es.len() { j - 1 } else { w.len() as int };
            assert forall|a: int| 0 <= a < k implies w[a].name != o by {
                assert(w[a] == es[if a < i { a } else { a + 1 }]);
            }
            if k < w.len() {
                assert(w[k] == es[if k < i { k } else { k + 1 }]);
            }
            lemma_env_slot_is(w, o, k);
        }
    }
}

/// The scopes of one kind, by name.
pub struct EnvStore {
    envs: Vec<Env>,
}

/// The scopes that a list stands for.
pub open spec fn store_model(v: Seq<Env>) -> Envs {
    v.map_values(|e: Env| e@)
}

impl View for EnvStore {
    type V = Envs;

    closed spec fn view(&self) -> Envs {
        store_model(self.envs@)
    }
}

impl EnvStore {
    /// The invariant of the type: one scope for a name.
    #[verifier::type_invariant]
    pub open spec fn wf(&self) -> bool {
        distinct_names(self@)
    }

    /// The store with no scope.
    pub fn new() -> (s: Self)
        ensures
            s@ == Envs::empty(),
    {
        let s = EnvStore { envs: Vec::new() };
        assert(s@ =~= Envs::empty());
        s
    }

    /// The number of scopes.
    pub fn len(&self) -> (n: usize)
        ensures
            n == self@.len(),
    {
        self.envs.len()
    }

    /// The scope at position `i`.
    pub fn entry(&self, i: usize) -> (e: &Env)
        requires
            i < self@.len(),
        ensures
            e@ == self@[i as int],
    {
        &self.envs[i]
    }

    fn index_of(&self, name: &String) -> (i: usize)
        ensures
            i == env_slot(self@, name@),
            i <= self@.len(),
    {
        let mut i: usize = 0;
        while i < self.envs.len()
            invariant
                i <= self.envs.len(),
                forall|j: int| 0 <= j < i ==> self@[j].name != name@,
            decreases self.envs.len() - i,
        {
            if self.envs[i].name == *name {
                proof {
                    lemma_env_slot_is(self@, name@, i as int);
                }
                return i;
            }
            i += 1;
        }
        proof {
            lemma_env_slot_is(self@, name@, i as int);
        }
        i
    }

    /// Whether there is a scope of that name.
    pub fn contains(&self, name: &str) -> (r: bool)
        ensures
            r == has_env(self@, name@),
    {
        let n = name.to_owned();
        self.index_of(&n) < self.envs.len()
    }

    /// The scope of that name.
    pub fn get(&self, name: &str) -> (r: Option<&Env>)
        ensures
            match r {
                Some(e) => env_of(self@, name@) == Some(e@),
                None => env_of(self@, name@).is_none(),
            },
    {
        let n = name.to_owned();
        let i = self.index_of(&n);
        if i < self.envs.len() {
            Some(&self.envs[i])
        } else {
            None
        }
    }

    /// Puts the scope into the store, in the place of the one of its name
    /// where there is one.
    pub fn put(&mut self, env: Env)
        ensures
            final(self)@ == put_env(old(self)@, env@),
    {
        proof {
            use_type_invariant(&*self);
            lemma_put_env(self@, env@);
        }
        let i = self.index_of(&env.name);
        let ghost goal = put_env(self@, env@);
        let mut envs: Vec<Env> = Vec::new();
        std::mem::swap(&mut envs, &mut self.envs);
        if i < envs.len() {
            envs.remove(i);
            envs.insert(i, env);
        } else {
            envs.push(env);
        }
        assert(store_model(envs@) =~= goal);
        self.envs = envs;
    }

    /// Takes the scope of that name out of the store.
    pub fn take(&mut self, name: &str) -> (r: Option<Env>)
        ensures
            final(self)@ == without_env(old(self)@, name@),
            match r {
                Some(e) => env_of(old(self)@, name@) == Some(e@),
                None => env_of(old(self)@, name@).is_none(),
            },
    {
        proof {
            use_type_invariant(&*self);
            lemma_without_env(self@, name@);
        }
        let n = name.to_owned();
        let i = self.index_of(&n);
        let ghost goal = without_env(self@, name@);
        let mut envs: Vec<Env> = Vec::new();
        std::mem::swap(&mut envs, &mut self.envs);
        let r = if i < envs.len() {
            Some(envs.remove(i))
        } else {
            None
        };
        assert(store_model(envs@) =~= goal);
        self.envs = envs;
        r
    }
}

/// The store after a scope named `name` was created, and whether it could
/// be: a name that is taken already is refused.
pub open spec fn created(es: Envs, name: Seq<char>) -> (Envs, Result<(), QuartzError>) {
    if has_env(es, text::trim(name)) {
        (es, Err(QuartzError::AlreadyExists))
    } else {
        (es.push(empty_env(text::trim(name))), Ok(()))
    }
}

/// The store after the variables of the scope `src` were copied into the
/// scope `dest`, and whether they could be: `src` must be there; `dest` is
/// created where it is not.
pub open spec fn copied(es: Envs, src: Seq<char>, dest: Seq<char>) -> (Envs, Result<(), QuartzError>) {
    match env_of(es, src) {
        Some(from) => {
            let into = match env_of(es, dest) {
                Some(e) => e,
                None => empty_env(text::trim(dest)),
            };
            (put_env(es, copied_into(from, into)), Ok(()))
        },
        None => (es, Err(QuartzError::NotFound)),
    }
}

/// The store after the scope named `name` was deleted, and whether it
/// could be: it must be there.
pub open spec fn deleted(es: Envs, name: Seq<char>) -> (Envs, Result<(), QuartzError>) {
    if has_env(es, name) {
        (without_env(es, name), Ok(()))
    } else {
        (es, Err(QuartzError::NotFound))
    }
}

/// The list of the scopes, one a line: `* ` before the one in use, two
/// spaces before the others.
pub open spec fn listed(es: Envs, in_use: Seq<char>) -> Seq<char>
    decreases es.len(),
{
    if es.len() == 0 {
        Seq::<char>::empty()
    } else {
        listed(es.drop_last(), in_use) + (if es.last().name == in_use {
            seq!['*', ' ']
        } else {
            seq![' ', ' ']
        }) + es.last().name + seq!['\n']
    }
}

impl EnvStore {
    /// Creates the scope named `name`, with nothing in it.
    pub fn create(&mut self, name: &str) -> (r: Result<(), QuartzError>)
        ensures
            final(self)@ == created(old(self)@, name@).0,
            r == created(old(self)@, name@).1,
    {
        let env = Env::new(name);
        if self.contains(env.name.as_str()) {
            Err(QuartzError::AlreadyExists)
        } else {
            self.put(env);
            Ok(())
        }
    }

    /// Copies the variables of the scope `src` into the scope `dest`:
    /// those of `src` win on common keys, the others of `dest` stay.
    pub fn copy(&mut self, src: &str, dest: &str) -> (r: Result<(), QuartzError>)
        ensures
            final(self)@ == copied(old(self)@, src@, dest@).0,
            r == copied(old(self)@, src@, dest@).1,
    {
        let from = match self.get(src) {
            Some(e) => e.variables.clone(),
            None => {
                return Err(QuartzError::NotFound);
            },
        };
        let mut into = match self.get(dest) {
            Some(e) => e.clone(),
            None => Env::new(dest),
        };
        into.variables.merge(&from);
        self.put(into);
        Ok(())
    }

    /// Deletes the scope named `name`.
    pub fn delete(&mut self, name: &str) -> (r: Result<(), QuartzError>)
        ensures
            final(self)@ == deleted(old(self)@, name@).0,
            r == deleted(old(self)@, name@).1,
    {
        if self.contains(name) {
            self.take(name);
            Ok(())
        } else {
            Err(QuartzError::NotFound)
        }
    }

    /// The list of the scopes, one a line, the one in use marked.
    pub fn list(&self, in_use: &str) -> (out: String)
        ensures
            out@ == listed(self@, in_use@),
    {
        let mut out = String::new();
        let mut i: usize = 0;
        proof {
            reveal_strlit("* ");
            reveal_strlit("  ");
            reveal_strlit("\n");
            assert("* "@ =~= seq!['*', ' ']);
            assert("  "@ =~= seq![' ', ' ']);
            assert("\n"@ =~= seq!['\n']);
            assert(self@.take(0) == Envs::empty());
        }
        while i < self.envs.len()
            invariant
                i <= self.envs.len(),
                "* "@ == seq!['*', ' '],
                "  "@ == seq![' ', ' '],
                "\n"@ == seq!['\n'],
                out@ == listed(self@.take(i as int), in_use@),
            decreases self.envs.len() - i,
        {
            proof {
                let t = self@.take(i + 1);
                assert(t.drop_last() == self@.take(i as int));
                assert(t.last() == self@[i as int]);
            }
            if text::same(self.envs[i].name.as_str(), in_use) {
                out.append("* ");
            } else {
                out.append("  ");
            }
            out.append(self.envs[i].name.as_str());
            out.append("\n");
            i += 1;
        }
        assert(self@.take(self@.len() as int) == self@);
        out
    }
}

} // verus!
