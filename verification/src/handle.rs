//! Handles: the paths that name the nodes of the endpoint tree.

use vstd::prelude::*;
use vstd::string::StringExecFns;
use crate::text;

verus! {

/// The model of a handle: its segments, outermost first.
pub type Path = Seq<Seq<char>>;

/// Whether `s` can be a segment of a handle: not empty, without a path
/// separator, without whitespace at either end.
pub open spec fn is_segment(s: Seq<char>) -> bool {
    &&& s.len() > 0
    &&& !s.contains('/')
    &&& !s.contains('\\')
    &&& text::is_trimmed(s)
}

/// The name under which `raw` is stored: path separators become `-`, then
/// whitespace and line breaks around it are dropped.
pub open spec fn segment_of(raw: Seq<char>) -> Seq<char> {
    text::trim(text::replace_either(raw, '/', '\\', '-'))
}

/// The stored names of `parts`, without those that come out empty.
pub open spec fn segments_of(parts: Seq<Seq<char>>) -> Path
    decreases parts.len(),
{
    if parts.len() == 0 {
        Seq::<Seq<char>>::empty()
    } else {
        let rest = segments_of(parts.drop_last());
        let segment = segment_of(parts.last());
        if segment.len() > 0 {
            rest.push(segment)
        } else {
            rest
        }
    }
}

/// The path that the text `handle` names: its `/`-separated fields, each
/// under its stored name.
pub open spec fn path_of(handle: Seq<char>) -> Path {
    segments_of(text::split(handle, '/'))
}

/// Whether `a` is `b` or stands above `b` in the tree.
pub open spec fn is_prefix(a: Path, b: Path) -> bool {
    a.len() <= b.len() && b.take(a.len() as int) == a
}

/// Whether every segment of `p` can be one.
pub open spec fn is_path(p: Path) -> bool {
    forall|i: int| 0 <= i < p.len() ==> is_segment(#[trigger] p[i])
}

/// A stored name that is not empty can be a segment.
pub proof fn lemma_segment_of(raw: Seq<char>)
    ensures
        segment_of(raw).len() > 0 ==> is_segment(segment_of(raw)),
        is_segment(raw) ==> segment_of(raw) == raw,
{
    let r = text::replace_either(raw, '/', '\\', '-');
    let (a, b) = text::lemma_trim(r);
    let s = segment_of(raw);
    assert forall|c: char| s.contains(c) implies c != '/' && c != '\\' by {
        let i = choose|i: int| 0 <= i < s.len() && s[i] == c;
        assert(s[i] == r[a + i]);
    }
    if is_segment(raw) {
        assert forall|i: int| 0 <= i < raw.len() implies r[i] == raw[i] by {
            assert(raw.contains(raw[i]));
        }
        assert(r =~= raw);
        text::lemma_trim_of_trimmed(raw);
    }
}

/// The name under which `name` is stored.
pub fn name_to_dir(name: &str) -> (out: String)
    ensures
        out@ == segment_of(name@),
{
    let replaced = text::replaced(name, '/', '\\', '-');
    text::trim_newline(replaced.as_str())
}

/// The path to a node of the endpoint tree. The empty path is the root.
pub struct EndpointHandle {
    path: Vec<String>,
}

impl View for EndpointHandle {
    type V = Path;

    closed spec fn view(&self) -> Path {
        self.path.deep_view()
    }
}

impl EndpointHandle {
    /// The invariant of the type: every segment can be one.
    #[verifier::type_invariant]
    pub open spec fn wf(&self) -> bool {
        is_path(self@)
    }

    /// The handle of the root.
    pub fn root() -> (h: Self)
        ensures
            h@ == Path::empty(),
    {
        let h = EndpointHandle { path: Vec::new() };
        assert(h@ =~= Path::empty());
        h
    }

    /// The handle made of the given names, each under its stored name;
    /// names that come out empty are left out.
    pub fn new(names: &Vec<String>) -> (h: Self)
        ensures
            h@ == segments_of(names.deep_view()),
    {
        let mut path: Vec<String> = Vec::new();
        let mut i: usize = 0;
        assert(names.deep_view().take(0) == Seq::<Seq<char>>::empty());
        assert(path.deep_view() =~= Seq::<Seq<char>>::empty());
        while i < names.len()
            invariant
                i <= names.len(),
                path.deep_view() == segments_of(names.deep_view().take(i as int)),
                is_path(path.deep_view()),
            decreases names.len() - i,
        {
            let segment = name_to_dir(names[i].as_str());
            proof {
                let t = names.deep_view().take(i + 1);
                assert(t.drop_last() == names.deep_view().take(i as int));
                assert(t.last() == names[i as int]@);
                lemma_segment_of(names[i as int]@);
            }
            if segment.as_str().unicode_len() > 0 {
                let ghost before = path.deep_view();
                path.push(segment);
                assert(path.deep_view() =~= before.push(segment@));
            }
            i += 1;
        }
        assert(names.deep_view().take(names.len() as int) == names.deep_view());
        EndpointHandle { path }
    }

    /// The handle that the text names: `a/b/c` is the node `c` under `b`
    /// under `a`.
    pub fn from_handle(handle: &str) -> (h: Self)
        ensures
            h@ == path_of(handle@),
    {
        let names = text::fields(handle, '/');
        EndpointHandle::new(&names)
    }

    /// The handle that the state has in use, if it has one.
    pub fn from_state(state: &crate::state::State) -> (r: Option<Self>)
        ensures
            match r {
                Some(h) => state@.endpoint.is_some() && h@ == path_of(state@.endpoint.unwrap()),
                None => state@.endpoint.is_none(),
            },
    {
        match &state.endpoint {
            Some(h) => Some(EndpointHandle::from_handle(h.as_str())),
            None => None,
        }
    }

    /// Where the node is stored: `endpoints`, then its segments, with `/`
    /// between them.
    pub fn dir(&self) -> (out: String)
        ensures
            out@ == "endpoints"@ + seq!['/'] + text::join(self@, seq!['/']),
    {
        proof {
            reveal_strlit("/");
            assert("/"@ =~= seq!['/']);
        }
        let mut out = String::from_str("endpoints");
        out.append("/");
        let rest = self.handle();
        out.append(rest.as_str());
        out
    }

    /// The handle as text: its segments with `/` between them.
    pub fn handle(&self) -> (out: String)
        ensures
            out@ == text::join(self@, seq!['/']),
    {
        proof {
            reveal_strlit("/");
            assert("/"@ =~= seq!['/']);
        }
        text::joined(&self.path, "/")
    }

    /// The number of segments: how deep the node lies under the root.
    pub fn depth(&self) -> (n: usize)
        ensures
            n == self@.len(),
    {
        self.path.len()
    }

    /// Whether this is the handle of the root.
    pub fn is_root(&self) -> (r: bool)
        ensures
            r == (self@.len() == 0),
    {
        self.path.len() == 0
    }

    /// The segment at position `i`.
    pub fn segment(&self, i: usize) -> (s: &String)
        requires
            i < self@.len(),
        ensures
            s@ == self@[i as int],
    {
        &self.path[i]
    }

    /// The handle made of the first `n` segments of this one.
    pub fn ancestor(&self, n: usize) -> (h: Self)
        requires
            n <= self@.len(),
        ensures
            h@ == self@.take(n as int),
    {
        proof {
            use_type_invariant(self);
        }
        let mut path: Vec<String> = Vec::new();
        let mut i: usize = 0;
        assert(path.deep_view() =~= self@.take(0));
        while i < n
            invariant
                i <= n <= self.path.len(),
                path.deep_view() == self@.take(i as int),
            decreases n - i,
        {
            let ghost before = path.deep_view();
            let s = self.path[i].clone();
            path.push(s);
            assert(path.deep_view() =~= before.push(s@));
            assert(before.push(self@[i as int]) =~= self@.take(i + 1));
            i += 1;
        }
        EndpointHandle { path }
    }

    /// The segments of the handle, outermost first.
    pub fn path(&self) -> (out: Vec<String>)
        ensures
            out.deep_view() == self@,
    {
        let mut out: Vec<String> = Vec::new();
        let mut i: usize = 0;
        assert(out.deep_view() =~= self@.take(0));
        while i < self.path.len()
            invariant
                i <= self.path.len(),
                out.deep_view() == self@.take(i as int),
            decreases self.path.len() - i,
        {
            let ghost before = out.deep_view();
            let s = self.path[i].clone();
            out.push(s);
            assert(out.deep_view() =~= before.push(s@));
            assert(before.push(self@[i as int]) =~= self@.take(i + 1));
            i += 1;
        }
        assert(self@.take(self@.len() as int) == self@);
        out
    }

    /// The handle of the node above this one; the root has none.
    pub fn parent(&self) -> (r: Option<Self>)
        ensures
            match r {
                Some(p) => self@.len() > 0 && p@ == self@.drop_last(),
                None => self@.len() == 0,
            },
    {
        if self.path.len() == 0 {
            None
        } else {
            let p = self.ancestor(self.path.len() - 1);
            assert(self@.take(self@.len() - 1) == self@.drop_last());
            Some(p)
        }
    }

    /// Whether the two handles name the same node.
    pub fn same_as(&self, other: &EndpointHandle) -> (r: bool)
        ensures
            r == (self@ == other@),
    {
        if self.path.len() != other.path.len() {
            assert(self@.len() == self.path.len() && other@.len() == other.path.len());
            return false;
        }
        let mut i: usize = 0;
        while i < self.path.len()
            invariant
                i <= self.path.len(),
                self.path.len() == other.path.len(),
                forall|j: int| 0 <= j < i ==> self@[j] == other@[j],
            decreases self.path.len() - i,
        {
            if self.path[i] != other.path[i] {
                assert(self@[i as int] != other@[i as int]);
                return false;
            }
            i += 1;
        }
        assert(self@ =~= other@);
        true
    }

    /// Whether this handle names `other` or a node above it.
    pub fn contains(&self, other: &EndpointHandle) -> (r: bool)
        ensures
            r == is_prefix(self@, other@),
    {
        if self.path.len() > other.path.len() {
            return false;
        }
        let mut i: usize = 0;
        while i < self.path.len()
            invariant
                i <= self.path.len() <= other.path.len(),
                forall|j: int| 0 <= j < i ==> self@[j] == other@[j],
            decreases self.path.len() - i,
        {
            if self.path[i] != other.path[i] {
                assert(other@.take(self@.len() as int)[i as int] == other@[i as int]);
                return false;
            }
            i += 1;
        }
        assert(other@.take(self@.len() as int) =~= self@);
        true
    }
}

impl Clone for EndpointHandle {
    fn clone(&self) -> (r: Self)
        ensures
            r@ == self@,
    {
        let h = self.ancestor(self.path.len());
        assert(self@.take(self@.len() as int) == self@);
        h
    }
}

/// The text of a path names that path again.
pub proof fn lemma_path_of_joined(handle: Seq<char>)
    ensures
        path_of(text::join(path_of(handle), seq!['/'])) == path_of(handle),
{
    lemma_segments_are_path(text::split(handle, '/'));
    lemma_join_round_trip(path_of(handle));
}

/// Stored names can all be segments.
pub proof fn lemma_segments_are_path(parts: Seq<Seq<char>>)
    ensures
        is_path(segments_of(parts)),
    decreases parts.len(),
{
    if parts.len() > 0 {
        lemma_segments_are_path(parts.drop_last());
        lemma_segment_of(parts.last());
    }
}

/// Segments stay as they are when they are stored again.
pub proof fn lemma_segments_of_path(p: Path)
    requires
        is_path(p),
    ensures
        segments_of(p) == p,
    decreases p.len(),
{
    if p.len() > 0 {
        lemma_segments_of_path(p.drop_last());
        lemma_segment_of(p.last());
        assert(p.drop_last().push(p.last()) =~= p);
    }
}

/// A path written as text and read back is the same path.
pub proof fn lemma_join_round_trip(p: Path)
    requires
        is_path(p),
    ensures
        path_of(text::join(p, seq!['/'])) == p,
    decreases p.len(),
{
    let sep = seq!['/'];
    if p.len() == 0 {
        assert(segment_of(Seq::<char>::empty()).len() == 0) by {
            text::lemma_trim(text::replace_either(Seq::<char>::empty(), '/', '\\', '-'));
        }
        let parts = text::split(Seq::<char>::empty(), '/');
        assert(parts.drop_last() =~= Seq::<Seq<char>>::empty());
        assert(segments_of(parts.drop_last()) =~= Path::empty());
    } else {
        lemma_split_joined(p);
        lemma_segments_of_path(p);
    }
}

/// The fields of the text of a path that is not empty are its segments.
pub proof fn lemma_split_joined(p: Path)
    requires
        is_path(p),
        p.len() > 0,
    ensures
        text::split(text::join(p, seq!['/']), '/') == p,
    decreases p.len(),
{
    let sep = seq!['/'];
    if p.len() == 1 {
        text::lemma_split_append(Seq::<char>::empty(), p[0], '/');
        assert(Seq::<char>::empty() + p[0] == p[0]);
        assert(seq![Seq::<char>::empty()].update(0, p[0]) =~= p);
    } else {
        let rest = p.drop_last();
        lemma_split_joined(rest);
        let before = text::join(rest, sep);
        let with_sep = before + sep;
        assert(with_sep.drop_last() == before);
        assert(with_sep.last() == '/');
        text::lemma_split_append(with_sep, p.last(), '/');
        assert(Seq::<char>::empty() + p.last() == p.last());
        assert(rest.push(Seq::<char>::empty()).update(rest.len() as int, p.last()) =~= p);
    }
}

/// Two handles that are written the same are the same handle, and so two
/// nodes are never stored at one place.
pub proof fn lemma_handle_one_to_one(a: Path, b: Path)
    requires
        is_path(a),
        is_path(b),
        text::join(a, seq!['/']) == text::join(b, seq!['/']),
    ensures
        a == b,
{
    lemma_join_round_trip(a);
    lemma_join_round_trip(b);
}

} // verus!
