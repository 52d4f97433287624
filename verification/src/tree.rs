//! The endpoint tree: which nodes exist, what each of them stores, and
//! what a node's endpoint comes to once the nodes above it are taken in.

use vstd::prelude::*;
use crate::endpoint::{blank, inherit, with_default_method, Endpoint, EndpointView};
use crate::error::QuartzError;
use crate::handle::{is_path, is_prefix, EndpointHandle, Path};
use crate::order::{lemma_path_order, lemma_path_transitive, path_less, path_lt};
use crate::pairs::{distinct, has_key, lemma_overlay, value_of};
use crate::wire::opt_view;

verus! {

/// The model of a tree: the paths of the nodes that exist below the root,
/// each with the endpoint it stores, if it stores one.
pub type Stored = Map<Path, Option<EndpointView>>;

/// Whether the node `p` exists in `t`. The root always does.
pub open spec fn exists_in(t: Stored, p: Path) -> bool {
    p.len() == 0 || t.dom().contains(p)
}

/// What the node `p` lays on what comes from above: the endpoint it
/// stores, or nothing where it stores none.
pub open spec fn stored(t: Stored, p: Path) -> EndpointView {
    if t.dom().contains(p) {
        match t[p] {
            Some(e) => e,
            None => blank(),
        }
    } else {
        blank()
    }
}

/// What the nodes from the root down to `p` come to: each laid on what
/// the nodes above it hand down.
pub open spec fn effective(t: Stored, p: Path) -> EndpointView
    decreases p.len(),
{
    if p.len() == 0 {
        blank()
    } else {
        inherit(effective(t, p.drop_last()), stored(t, p))
    }
}

/// The endpoint that the handle `p` resolves to.
pub open spec fn resolved(t: Stored, p: Path) -> Result<EndpointView, QuartzError> {
    if exists_in(t, p) {
        Ok(with_default_method(effective(t, p)))
    } else {
        Err(QuartzError::NotFound)
    }
}

/// `t` with a node for `p` and for every path above it, where there was
/// none. A node made this way stores nothing.
pub open spec fn with_nodes(t: Stored, p: Path) -> Stored
    decreases p.len(),
{
    if p.len() == 0 {
        t
    } else {
        let up = with_nodes(t, p.drop_last());
        if up.dom().contains(p) {
            up
        } else {
            up.insert(p, None)
        }
    }
}

/// `t` after the endpoint `e` was written at the new node `p`.
pub open spec fn written(t: Stored, p: Path, e: EndpointView) -> Stored {
    with_nodes(t, p.drop_last()).insert(p, Some(e))
}

/// `t` without the node `p` and without every node below it.
pub open spec fn without_subtree(t: Stored, p: Path) -> Stored {
    t.restrict(Set::new(|q: Path| !is_prefix(p, q)))
}

/// Whether `t` can be the model of a tree: the root is not stored, every
/// other node stands under a node that exists, and no stored endpoint has
/// a key twice.
pub open spec fn is_tree(t: Stored) -> bool {
    &&& forall|p: Path| #[trigger] t.dom().contains(p) ==> p.len() > 0 && is_path(p) && exists_in(t, p.drop_last())
    &&& forall|p: Path| #[trigger]
        t.dom().contains(p) ==> distinct(stored(t, p).headers) && distinct(stored(t, p).query)
}

/// A node of the tree.
pub struct Node {
    handle: EndpointHandle,
    endpoint: Option<Endpoint>,
}

impl Node {
    /// What the node stores, as a model.
    pub closed spec fn config(&self) -> Option<EndpointView> {
        match self.endpoint {
            Some(e) => Some(e@),
            None => None,
        }
    }

    /// The path of the node.
    pub closed spec fn path(&self) -> Path {
        self.handle@
    }
}

/// Whether some node of `nodes` has the path `p`.
pub open spec fn holds(nodes: Seq<Node>, p: Path) -> bool {
    exists|i: int| 0 <= i < nodes.len() && (#[trigger] nodes[i]).path() == p
}

/// The position of a node with the path `p`.
pub open spec fn index_of(nodes: Seq<Node>, p: Path) -> int {
    choose|i: int| 0 <= i < nodes.len() && (#[trigger] nodes[i]).path() == p
}

/// The tree that a list of nodes stands for.
pub open spec fn model(nodes: Seq<Node>) -> Stored {
    Map::new(|p: Path| holds(nodes, p), |p: Path| nodes[index_of(nodes, p)].config())
}

/// Whether no two nodes have the same path.
pub open spec fn distinct_paths(nodes: Seq<Node>) -> bool {
    forall|i: int, j: int|
        0 <= i < j < nodes.len() ==> (#[trigger] nodes[i]).path() != (#[trigger] nodes[j]).path()
}

/// With distinct paths, the position of a node is the one found for its
/// path.
pub proof fn lemma_index_of(nodes: Seq<Node>, i: int)
    requires
        distinct_paths(nodes),
        0 <= i < nodes.len(),
    ensures
        holds(nodes, nodes[i].path()),
        index_of(nodes, nodes[i].path()) == i,
        model(nodes).dom().contains(nodes[i].path()),
        model(nodes)[nodes[i].path()] == nodes[i].config(),
{
    let p = nodes[i].path();
    let j = index_of(nodes, p);
    assert(0 <= j < nodes.len() && nodes[j].path() == p);
}

fn position(nodes: &Vec<Node>, handle: &EndpointHandle) -> (r: Option<usize>)
    requires
        distinct_paths(nodes@),
    ensures
        match r {
            Some(i) => i < nodes.len() && nodes[i as int].path() == handle@ && model(
                nodes@,
            ).dom().contains(handle@) && model(nodes@)[handle@] == nodes[i as int].config(),
            None => !model(nodes@).dom().contains(handle@),
        },
{
    let mut i: usize = 0;
    while i < nodes.len()
        invariant
            i <= nodes.len(),
            distinct_paths(nodes@),
            forall|j: int| 0 <= j < i ==> (#[trigger] nodes[j]).path() != handle@,
        decreases nodes.len() - i,
    {
        if nodes[i].handle.same_as(handle) {
            proof {
                lemma_index_of(nodes@, i as int);
            }
            return Some(i);
        }
        i += 1;
    }
    None
}

/// Adding a node with a new path adds its path and what it stores.
proof fn lemma_push(nodes: Seq<Node>, n: Node)
    requires
        distinct_paths(nodes),
        !holds(nodes, n.path()),
    ensures
        distinct_paths(nodes.push(n)),
        model(nodes.push(n)) == model(nodes).insert(n.path(), n.config()),
{
    let more = nodes.push(n);
    assert forall|i: int, j: int| 0 <= i < j < more.len() implies (#[trigger] more[i]).path() != (
    #[trigger] more[j]).path() by {
        assert(more[i] == nodes[i]);
        if j < nodes.len() {
            assert(more[j] == nodes[j]);
        }
    }
    assert forall|p: Path| holds(more, p) <==> (holds(nodes, p) || p == n.path()) by {
        if holds(more, p) {
            let i = index_of(more, p);
            if i < nodes.len() {
                assert(nodes[i] == more[i]);
            }
        }
        if holds(nodes, p) {
            let i = index_of(nodes, p);
            assert(nodes[i] == more[i]);
        }
        if p == n.path() {
            assert(more[nodes.len() as int].path() == p);
        }
    }
    assert forall|p: Path| holds(more, p) implies #[trigger] model(more)[p] == model(nodes).insert(
        n.path(),
        n.config(),
    )[p] by {
        let i = index_of(more, p);
        lemma_index_of(more, i);
        if i < nodes.len() {
            assert(nodes[i] == more[i]);
            lemma_index_of(nodes, i);
        }
    }
    assert(model(more) =~= model(nodes).insert(n.path(), n.config()));
}

/// Putting a node in the place of one with the same path replaces what is
/// stored under that path.
proof fn lemma_replace(nodes: Seq<Node>, at: int, n: Node)
    requires
        distinct_paths(nodes),
        0 <= at < nodes.len(),
        n.path() == nodes[at].path(),
    ensures
        distinct_paths(nodes.update(at, n)),
        model(nodes.update(at, n)) == model(nodes).insert(n.path(), n.config()),
{
    let more = nodes.update(at, n);
    assert forall|i: int, j: int| 0 <= i < j < more.len() implies (#[trigger] more[i]).path() != (
    #[trigger] more[j]).path() by {
        assert(more[i].path() == nodes[i].path());
        assert(more[j].path() == nodes[j].path());
    }
    assert forall|p: Path| holds(more, p) <==> holds(nodes, p) by {
        if holds(more, p) {
            let i = index_of(more, p);
            assert(nodes[i].path() == more[i].path());
        }
        if holds(nodes, p) {
            let i = index_of(nodes, p);
            assert(nodes[i].path() == more[i].path());
        }
    }
    lemma_index_of(nodes, at);
    assert forall|p: Path| holds(more, p) implies #[trigger] model(more)[p] == model(nodes).insert(
        n.path(),
        n.config(),
    )[p] by {
        let i = index_of(more, p);
        lemma_index_of(more, i);
        if i != at {
            assert(nodes[i] == more[i]);
            lemma_index_of(nodes, i);
        }
    }
    assert(model(more) =~= model(nodes).insert(n.path(), n.config()));
}

/// Taking a node out takes out its path.
proof fn lemma_remove_at(nodes: Seq<Node>, at: int)
    requires
        distinct_paths(nodes),
        0 <= at < nodes.len(),
    ensures
        distinct_paths(nodes.remove(at)),
        model(nodes.remove(at)) == model(nodes).remove(nodes[at].path()),
{
    let less = nodes.remove(at);
    assert forall|i: int| 0 <= i < less.len() implies #[trigger] less[i] == nodes[if i < at {
        i
    } else {
        i + 1
    }] by {}
    assert forall|i: int, j: int| 0 <= i < j < less.len() implies (#[trigger] less[i]).path() != (
    #[trigger] less[j]).path() by {
        let a = if i < at { i } else { i + 1 };
        let b = if j < at { j } else { j + 1 };
        assert(less[i] == nodes[a]);
        assert(less[j] == nodes[b]);
    }
    assert forall|p: Path| holds(less, p) <==> (holds(nodes, p) && p != nodes[at].path()) by {
        if holds(less, p) {
            let i = index_of(less, p);
            let a = if i < at { i } else { i + 1 };
            assert(less[i] == nodes[a]);
        }
        if holds(nodes, p) && p != nodes[at].path() {
            let i = index_of(nodes, p);
            let a = if i < at { i } else { i - 1 };
            assert(less[a] == nodes[i]);
        }
    }
    assert forall|p: Path| holds(less, p) implies #[trigger] model(less)[p] == model(nodes)[p] by {
        let i = index_of(less, p);
        lemma_index_of(less, i);
        let a = if i < at { i } else { i + 1 };
        assert(less[i] == nodes[a]);
        lemma_index_of(nodes, a);
    }
    assert(model(less) =~= model(nodes).remove(nodes[at].path()));
}

/// The endpoint tree.
pub struct EndpointTree {
    nodes: Vec<Node>,
}

impl View for EndpointTree {
    type V = Stored;

    closed spec fn view(&self) -> Stored {
        model(self.nodes@)
    }
}

impl EndpointTree {
    /// The invariant of the type.
    #[verifier::type_invariant]
    pub closed spec fn wf(&self) -> bool {
        distinct_paths(self.nodes@) && is_tree(model(self.nodes@))
    }

    /// The model of a well-formed tree is a tree.
    pub proof fn lemma_wf(&self)
        requires
            self.wf(),
        ensures
            is_tree(self@),
    {
    }

    /// The tree with no node but the root.
    pub fn new() -> (t: Self)
        ensures
            t@ == Stored::empty(),
    {
        let t = EndpointTree { nodes: Vec::new() };
        assert(t@ =~= Stored::empty());
        t
    }

    /// The number of nodes below the root.
    pub fn len(&self) -> (n: usize)
        ensures
            n == self@.dom().len(),
            self@.dom().finite(),
    {
        proof {
            use_type_invariant(self);
            lemma_model_len(self.nodes@);
        }
        self.nodes.len()
    }

    fn find(&self, handle: &EndpointHandle) -> (r: Option<usize>)
        ensures
            match r {
                Some(i) => i < self.nodes.len() && self.nodes[i as int].path() == handle@
                    && self@.dom().contains(handle@) && self@[handle@]
                    == self.nodes[i as int].config(),
                None => !self@.dom().contains(handle@),
            },
    {
        proof {
            use_type_invariant(self);
        }
        position(&self.nodes, handle)
    }

    /// Whether the node exists. The root always does.
    pub fn contains(&self, handle: &EndpointHandle) -> (r: bool)
        ensures
            r == exists_in(self@, handle@),
    {
        handle.is_root() || self.find(handle).is_some()
    }

    /// The endpoint that the node stores: none where the node does not
    /// exist or stores none.
    pub fn endpoint(&self, handle: &EndpointHandle) -> (r: Option<&Endpoint>)
        ensures
            match r {
                Some(e) => self@.dom().contains(handle@) && self@[handle@] == Some(e@),
                None => !self@.dom().contains(handle@) || self@[handle@].is_none(),
            },
    {
        match self.find(handle) {
            Some(i) => match &self.nodes[i].endpoint {
                Some(e) => Some(e),
                None => None,
            },
            None => None,
        }
    }

    /// Replaces the endpoint that a node stores. A node that stores none,
    /// or does not exist, is not found.
    pub fn update(&mut self, handle: &EndpointHandle, endpoint: Endpoint) -> (r: Result<
        (),
        QuartzError,
    >)
        ensures
            r.is_ok() <==> old(self)@.dom().contains(handle@) && old(self)@[handle@].is_some(),
            match r {
                Ok(_) => final(self)@ == old(self)@.insert(handle@, Some(endpoint@)),
                Err(e) => e == QuartzError::NotFound && final(self)@ == old(self)@,
            },
    {
        proof {
            use_type_invariant(&*self);
            use_type_invariant(&endpoint.headers);
            use_type_invariant(&endpoint.query);
        }
        match self.find(handle) {
            Some(i) => {
                if self.nodes[i].endpoint.is_none() {
                    return Err(QuartzError::NotFound);
                }
                let ghost before = self.nodes@;
                let mut nodes: Vec<Node> = Vec::new();
                std::mem::swap(&mut nodes, &mut self.nodes);
                let gone = nodes.remove(i);
                let node = Node { handle: gone.handle, endpoint: Some(endpoint) };
                nodes.insert(i, node);
                proof {
                    assert(nodes@ =~= before.update(i as int, node));
                    lemma_replace(before, i as int, node);
                    let t = model(before);
                    let u = model(nodes@);
                    assert(u.dom() =~= t.dom());
                    assert forall|p: Path| #[trigger] u.dom().contains(p) implies p.len() > 0
                        && is_path(p) && exists_in(u, p.drop_last()) && distinct(
                        stored(u, p).headers,
                    ) && distinct(stored(u, p).query) by {
                        assert(t.dom().contains(p));
                        if p != handle@ {
                            assert(stored(u, p) == stored(t, p));
                        }
                    }
                }
                self.nodes = nodes;
                Ok(())
            },
            None => Err(QuartzError::NotFound),
        }
    }

    /// Makes sure that the node exists, and every node above it. A node
    /// made on the way stores nothing; the nodes that exist stay as they
    /// are.
    pub fn create(&mut self, handle: &EndpointHandle)
        ensures
            final(self)@ == with_nodes(old(self)@, handle@),
            exists_in(final(self)@, handle@),
    {
        proof {
            use_type_invariant(&*self);
            use_type_invariant(handle);
        }
        let ghost start = self@;
        let mut nodes: Vec<Node> = Vec::new();
        std::mem::swap(&mut nodes, &mut self.nodes);
        let depth = handle.depth();
        let mut k: usize = 0;
        assert(handle@.take(0) == Path::empty());
        while k < depth
            invariant
                k <= depth == handle@.len(),
                is_path(handle@),
                distinct_paths(nodes@),
                is_tree(model(nodes@)),
                model(nodes@) == with_nodes(start, handle@.take(k as int)),
                exists_in(model(nodes@), handle@.take(k as int)),
            decreases depth - k,
        {
            let above = handle.ancestor(k + 1);
            proof {
                assert(above@.drop_last() == handle@.take(k as int));
                assert(above@.len() == k + 1);
                assert forall|i: int| 0 <= i < above@.len() implies crate::handle::is_segment(
                    #[trigger] above@[i],
                ) by {
                    assert(above@[i] == handle@[i]);
                }
            }
            if position(&nodes, &above).is_none() {
                let node = Node { handle: above, endpoint: None };
                proof {
                    lemma_push(nodes@, node);
                    let t = model(nodes@);
                    let u = t.insert(above@, None);
                    assert forall|p: Path| #[trigger] u.dom().contains(p) implies p.len() > 0
                        && is_path(p) && exists_in(u, p.drop_last()) && distinct(
                        stored(u, p).headers,
                    ) && distinct(stored(u, p).query) by {
                        if p != above@ {
                            assert(t.dom().contains(p));
                            assert(stored(u, p) == stored(t, p));
                        }
                    }
                }
                nodes.push(node);
            }
            k += 1;
        }
        assert(handle@.take(depth as int) == handle@);
        self.nodes = nodes;
    }

    /// Creates the node and stores the endpoint at it. The nodes above it
    /// that do not exist yet are created too and store nothing. A node that
    /// exists already is not written over.
    pub fn write(&mut self, handle: &EndpointHandle, endpoint: Endpoint) -> (r: Result<
        (),
        QuartzError,
    >)
        ensures
            r.is_ok() <==> !exists_in(old(self)@, handle@),
            match r {
                Ok(_) => final(self)@ == written(old(self)@, handle@, endpoint@),
                Err(e) => e == QuartzError::AlreadyExists && final(self)@ == old(self)@,
            },
    {
        proof {
            use_type_invariant(&*self);
            use_type_invariant(handle);
            use_type_invariant(&endpoint.headers);
            use_type_invariant(&endpoint.query);
        }
        if self.contains(handle) {
            return Err(QuartzError::AlreadyExists);
        }
        let ghost start = self@;
        match handle.parent() {
            Some(above) => {
                self.create(&above);
            },
            None => {},
        }
        proof {
            use_type_invariant(&*self);
            lemma_with_nodes(start, handle@.drop_last(), handle@);
            assert(!is_prefix(handle@, handle@.drop_last()));
        }
        let mut nodes: Vec<Node> = Vec::new();
        std::mem::swap(&mut nodes, &mut self.nodes);
        let node = Node { handle: handle.clone(), endpoint: Some(endpoint) };
        proof {
            lemma_push(nodes@, node);
            let t = model(nodes@);
            let u = t.insert(handle@, Some(endpoint@));
            assert forall|p: Path| #[trigger] u.dom().contains(p) implies p.len() > 0 && is_path(p)
                && exists_in(u, p.drop_last()) && distinct(stored(u, p).headers) && distinct(
                stored(u, p).query,
            ) by {
                if p != handle@ {
                    assert(t.dom().contains(p));
                    assert(stored(u, p) == stored(t, p));
                }
            }
        }
        nodes.push(node);
        self.nodes = nodes;
        Ok(())
    }

    /// Removes the node and every node below it. Removing the root leaves
    /// the root alone and removes all the others.
    pub fn remove(&mut self, handle: &EndpointHandle) -> (r: Result<(), QuartzError>)
        ensures
            r.is_ok() <==> exists_in(old(self)@, handle@),
            match r {
                Ok(_) => final(self)@ == without_subtree(old(self)@, handle@),
                Err(e) => e == QuartzError::NotFound && final(self)@ == old(self)@,
            },
    {
        proof {
            use_type_invariant(&*self);
        }
        if !self.contains(handle) {
            return Err(QuartzError::NotFound);
        }
        let ghost start = self@;
        let mut nodes: Vec<Node> = Vec::new();
        std::mem::swap(&mut nodes, &mut self.nodes);
        let mut i: usize = 0;
        while i < nodes.len()
            invariant
                i <= nodes.len(),
                distinct_paths(nodes@),
                without_subtree(model(nodes@), handle@) == without_subtree(start, handle@),
                forall|j: int| 0 <= j < i ==> !is_prefix(handle@, (#[trigger] nodes[j]).path()),
            decreases nodes.len() - i,
        {
            if handle.contains(&nodes[i].handle) {
                proof {
                    lemma_remove_at(nodes@, i as int);
                    assert(without_subtree(model(nodes@).remove(nodes[i as int].path()), handle@)
                        =~= without_subtree(model(nodes@), handle@));
                }
                nodes.remove(i);
            } else {
                i += 1;
            }
        }
        proof {
            assert(without_subtree(model(nodes@), handle@) =~= model(nodes@)) by {
                assert forall|p: Path| model(nodes@).dom().contains(p) implies !is_prefix(
                    handle@,
                    p,
                ) by {
                    let j = index_of(nodes@, p);
                    assert(nodes[j].path() == p);
                }
            }
            lemma_without_subtree(start, handle@);
        }
        self.nodes = nodes;
        Ok(())
    }

    /// The endpoint that the handle resolves to: what the node stores, laid
    /// on what the nodes above it hand down, with the default method where
    /// none of them sets one. A node that does not exist is not found.
    pub fn resolve(&self, handle: &EndpointHandle) -> (r: Result<Endpoint, QuartzError>)
        ensures
            match r {
                Ok(e) => resolved(self@, handle@) == Ok::<EndpointView, QuartzError>(e@),
                Err(e) => resolved(self@, handle@) == Err::<EndpointView, QuartzError>(e),
            },
    {
        if !self.contains(handle) {
            return Err(QuartzError::NotFound);
        }
        let mut acc = Endpoint::blank();
        let depth = handle.depth();
        let mut k: usize = 0;
        assert(handle@.take(0) == Path::empty());
        while k < depth
            invariant
                k <= depth == handle@.len(),
                acc@ == effective(self@, handle@.take(k as int)),
            decreases depth - k,
        {
            k += 1;
            let above = handle.ancestor(k);
            assert(above@.drop_last() == handle@.take(k - 1));
            match self.endpoint(&above) {
                Some(e) => {
                    acc.inherit(e);
                },
                None => {
                    let nothing = Endpoint::blank();
                    acc.inherit(&nothing);
                },
            }
        }
        assert(handle@.take(depth as int) == handle@);
        if acc.method.as_str().unicode_len() == 0 {
            let fresh = Endpoint::new();
            acc.method = fresh.method;
        }
        Ok(acc)
    }

    fn has_child(&self, handle: &EndpointHandle) -> (r: bool)
        ensures
            r == has_children(self@, handle@),
    {
        proof {
            use_type_invariant(self);
        }
        let mut i: usize = 0;
        while i < self.nodes.len()
            invariant
                i <= self.nodes.len(),
                distinct_paths(self.nodes@),
                forall|j: int|
                    0 <= j < i ==> !((#[trigger] self.nodes[j]).path().len() == handle@.len() + 1
                        && is_prefix(handle@, self.nodes[j].path())),
            decreases self.nodes.len() - i,
        {
            let node = &self.nodes[i];
            let depth = node.handle.depth();
            let under = handle.contains(&node.handle);
            assert(node.path() == node.handle@);
            if handle.depth() < usize::MAX && depth == handle.depth() + 1 && under {
                proof {
                    lemma_index_of(self.nodes@, i as int);
                    assert(self@.dom().contains(node.path()));
                }
                return true;
            }
            assert(!(self.nodes[i as int].path().len() == handle@.len() + 1 && is_prefix(
                handle@,
                self.nodes[i as int].path(),
            )));
            i += 1;
        }
        proof {
            if has_children(self@, handle@) {
                let q = choose|q: Path| #[trigger]
                    self@.dom().contains(q) && q.len() == handle@.len() + 1 && is_prefix(
                        handle@,
                        q,
                    );
                let j = index_of(self.nodes@, q);
                assert(self.nodes[j].path() == q);
            }
        }
        false
    }

    /// The nodes below `handle`, each before the nodes below it and the
    /// nodes under one node by their names. With a `max_depth`, nodes more
    /// than that many levels below the nodes right under `handle` are left
    /// out, and a node at the last level that has nodes below it says so.
    #[verifier::rlimit(80)]
    pub fn children(&self, handle: &EndpointHandle, max_depth: Option<usize>) -> (out: Vec<
        Listed,
    >)
        ensures
            forall|i: int|
                0 <= i < out@.len() ==> listable(self@, handle@, max_depth, (#[trigger] out@[i]).handle@)
                    && opt_view(out@[i].method) == method_at(self@, out@[i].handle@)
                    && out@[i].more == cut_short(self@, handle@, max_depth, out@[i].handle@),
            forall|p: Path|
                listable(self@, handle@, max_depth, p) ==> exists|i: int|
                    0 <= i < out@.len() && (#[trigger] out@[i]).handle@ == p,
            forall|i: int, j: int|
                0 <= i < j < out@.len() ==> path_lt(
                    (#[trigger] out@[i]).handle@,
                    (#[trigger] out@[j]).handle@,
                ),
    {
        proof {
            use_type_invariant(self);
        }
        let mut out: Vec<Listed> = Vec::new();
        let mut i: usize = 0;
        while i < self.nodes.len()
            invariant
                i <= self.nodes.len(),
                distinct_paths(self.nodes@),
                forall|k: int|
                    0 <= k < out@.len() ==> listable(
                        self@,
                        handle@,
                        max_depth,
                        (#[trigger] out@[k]).handle@,
                    ) && opt_view(out@[k].method) == method_at(self@, out@[k].handle@)
                        && out@[k].more == cut_short(self@, handle@, max_depth, out@[k].handle@),
                forall|k: int|
                    0 <= k < out@.len() ==> exists|n: int|
                        0 <= n < i && (#[trigger] self.nodes[n]).path() == (#[trigger] out@[k]).handle@,
                forall|n: int|
                    0 <= n < i && listable(self@, handle@, max_depth, (#[trigger] self.nodes[n]).path())
                        ==> exists|k: int|
                        0 <= k < out@.len() && (#[trigger] out@[k]).handle@ == self.nodes[n].path(),
                in_order(out@),
            decreases self.nodes.len() - i,
        {
            let node = &self.nodes[i];
            proof {
                lemma_index_of(self.nodes@, i as int);
            }
            let below = handle.contains(&node.handle) && node.handle.depth() > handle.depth();
            let level: usize = if below {
                node.handle.depth() - handle.depth() - 1
            } else {
                0
            };
            let near = match max_depth {
                Some(m) => level <= m,
                None => true,
            };
            if below && near {
                let last = match max_depth {
                    Some(m) => level == m,
                    None => false,
                };
                let more = last && self.has_child(&node.handle);
                let item = Listed {
                    handle: node.handle.clone(),
                    method: match &node.endpoint {
                        Some(e) => Some(e.method.clone()),
                        None => None,
                    },
                    more,
                };
                let ghost p = node.path();
                let ghost before = out@;
                proof {
                    assert forall|a: int| 0 <= a < before.len() implies (#[trigger] before[a]).handle@
                        != p by {
                        let n = choose|n: int|
                            0 <= n < i && (#[trigger] self.nodes[n]).path() == before[a].handle@;
                        assert(self.nodes[n].path() != self.nodes[i as int].path());
                    }
                }
                let k = insert_listed(&mut out, item);
                proof {
                    let after = out@;
                    assert forall|a: int| 0 <= a < after.len() implies #[trigger] after[a] == (if a
                        < k {
                        before[a]
                    } else if a == k {
                        item
                    } else {
                        before[a - 1]
                    }) by {}
                    assert forall|a: int| 0 <= a < after.len() implies exists|n: int|
                        0 <= n < i + 1 && (#[trigger] self.nodes[n]).path() == (
                        #[trigger] after[a]).handle@ by {
                        if a == k {
                            assert(self.nodes[i as int].path() == after[a].handle@);
                        } else {
                            let b = if a < k { a } else { a - 1 };
                            let n = choose|n: int|
                                0 <= n < i && (#[trigger] self.nodes[n]).path() == before[b].handle@;
                            assert(self.nodes[n].path() == after[a].handle@);
                        }
                    }
                    assert forall|n: int|
                        0 <= n < i + 1 && listable(
                            self@,
                            handle@,
                            max_depth,
                            (#[trigger] self.nodes[n]).path(),
                        ) implies exists|a: int|
                        0 <= a < after.len() && (#[trigger] after[a]).handle@
                            == self.nodes[n].path() by {
                        if n == i {
                            assert(after[k as int].handle@ == self.nodes[n].path());
                        } else {
                            let b = choose|b: int|
                                0 <= b < before.len() && (#[trigger] before[b]).handle@
                                    == self.nodes[n].path();
                            let a = if b < k { b } else { b + 1 };
                            assert(after[a].handle@ == self.nodes[n].path());
                        }
                    }
                    assert forall|a: int| 0 <= a < after.len() implies listable(
                        self@,
                        handle@,
                        max_depth,
                        (#[trigger] after[a]).handle@,
                    ) && opt_view(after[a].method) == method_at(self@, after[a].handle@)
                        && after[a].more == cut_short(
                        self@,
                        handle@,
                        max_depth,
                        after[a].handle@,
                    ) by {
                        if a != k {
                            let b = if a < k { a } else { a - 1 };
                            assert(after[a] == before[b]);
                        }
                    }
                }
            }
            i += 1;
        }
        proof {
            assert forall|p: Path| listable(self@, handle@, max_depth, p) implies exists|k: int|
                0 <= k < out@.len() && (#[trigger] out@[k]).handle@ == p by {
                let n = index_of(self.nodes@, p);
                assert(self.nodes[n].path() == p);
            }
        }
        out
    }
}

/// Whether the listed nodes stand in the order of their paths.
pub open spec fn in_order(items: Seq<Listed>) -> bool {
    forall|a: int, b: int|
        0 <= a < b < items.len() ==> path_lt((#[trigger] items[a]).handle@, (#[trigger] items[b]).handle@)
}

/// Puts `item` at its place into a list that is in order and gives the
/// place.
fn insert_listed(out: &mut Vec<Listed>, item: Listed) -> (k: usize)
    requires
        in_order(old(out)@),
        forall|a: int| 0 <= a < old(out)@.len() ==> (#[trigger] old(out)@[a]).handle@ != item.handle@,
    ensures
        k <= old(out)@.len(),
        final(out)@ == old(out)@.insert(k as int, item),
        in_order(final(out)@),
{
    let ghost before = out@;
    let ghost p = item.handle@;
    let mut k: usize = 0;
    while k < out.len() && path_less(&out[k].handle, &item.handle)
        invariant
            k <= out.len(),
            out@ == before,
            item.handle@ == p,
            forall|a: int| 0 <= a < k ==> path_lt((#[trigger] out@[a]).handle@, p),
        decreases out.len() - k,
    {
        k += 1;
    }
    proof {
        assert forall|b: int| k <= b < before.len() implies path_lt(
            p,
            (#[trigger] before[b]).handle@,
        ) by {
            lemma_path_order(p, before[k as int].handle@);
            if b > k {
                lemma_path_transitive(p, before[k as int].handle@, before[b].handle@);
            }
        }
    }
    out.insert(k, item);
    proof {
        let after = out@;
        assert forall|a: int| 0 <= a < after.len() implies #[trigger] after[a] == (if a < k {
            before[a]
        } else if a == k {
            item
        } else {
            before[a - 1]
        }) by {}
        assert forall|a: int, b: int| 0 <= a < b < after.len() implies path_lt(
            (#[trigger] after[a]).handle@,
            (#[trigger] after[b]).handle@,
        ) by {
            if a < k && b > k {
                assert(path_lt(before[a].handle@, p));
                assert(path_lt(p, before[b - 1].handle@));
                lemma_path_transitive(before[a].handle@, p, before[b - 1].handle@);
            } else if a > k {
                assert(path_lt(before[a - 1].handle@, before[b - 1].handle@));
            } else if b < k {
                assert(path_lt(before[a].handle@, before[b].handle@));
            }
        }
    }
    k
}

/// A node as it is listed.
pub struct Listed {
    pub handle: EndpointHandle,
    /// The method of the endpoint that the node stores; nothing for a node
    /// that stores none.
    pub method: Option<String>,
    /// Whether the node has nodes below it that the listing leaves out.
    pub more: bool,
}

/// Whether a node `level` levels below the nodes right under the listed
/// node is within the depth asked for.
pub open spec fn within(max_depth: Option<usize>, level: int) -> bool {
    match max_depth {
        Some(m) => level <= m,
        None => true,
    }
}

/// Whether the node `p` is listed among the nodes below `h`.
pub open spec fn listable(t: Stored, h: Path, max_depth: Option<usize>, p: Path) -> bool {
    &&& t.dom().contains(p)
    &&& is_prefix(h, p)
    &&& p.len() > h.len()
    &&& within(max_depth, p.len() - h.len() - 1)
}

/// Whether the node `p` has a node right under it.
pub open spec fn has_children(t: Stored, p: Path) -> bool {
    exists|q: Path| #[trigger] t.dom().contains(q) && q.len() == p.len() + 1 && is_prefix(p, q)
}

/// Whether the listing of the nodes below `h` stops at the node `p`
/// although there are nodes below `p`.
pub open spec fn cut_short(t: Stored, h: Path, max_depth: Option<usize>, p: Path) -> bool {
    max_depth == Some((p.len() - h.len() - 1) as usize) && has_children(t, p)
}

/// The method of the endpoint that the node `p` stores.
pub open spec fn method_at(t: Stored, p: Path) -> Option<Seq<char>> {
    match t[p] {
        Some(e) => Some(e.method),
        None => None,
    }
}

/// A tree without one of its subtrees is a tree.
pub proof fn lemma_without_subtree(t: Stored, h: Path)
    requires
        is_tree(t),
    ensures
        is_tree(without_subtree(t, h)),
{
    let u = without_subtree(t, h);
    assert forall|p: Path| #[trigger] u.dom().contains(p) implies p.len() > 0 && is_path(p)
        && exists_in(u, p.drop_last()) && distinct(stored(u, p).headers) && distinct(
        stored(u, p).query,
    ) by {
        assert(t.dom().contains(p));
        assert(stored(u, p) == stored(t, p));
        let q = p.drop_last();
        if q.len() > 0 {
            if is_prefix(h, q) {
                assert(p.take(h.len() as int) =~= q.take(h.len() as int));
            }
        }
    }
}

/// A list of nodes with distinct paths stands for a tree with as many
/// nodes.
pub proof fn lemma_model_len(nodes: Seq<Node>)
    requires
        distinct_paths(nodes),
    ensures
        model(nodes).dom().finite(),
        model(nodes).dom().len() == nodes.len(),
    decreases nodes.len(),
{
    if nodes.len() == 0 {
        assert(model(nodes).dom() =~= Set::<Path>::empty());
    } else {
        let rest = nodes.drop_last();
        let last = nodes.last();
        lemma_model_len(rest);
        assert(!holds(rest, last.path())) by {
            if holds(rest, last.path()) {
                let i = index_of(rest, last.path());
                assert(rest[i] == nodes[i]);
            }
        }
        assert(model(nodes).dom() =~= model(rest).dom().insert(last.path())) by {
            assert forall|p: Path| model(nodes).dom().contains(p) <==> model(rest).dom().insert(
                last.path(),
            ).contains(p) by {
                if holds(nodes, p) {
                    let i = index_of(nodes, p);
                    if i < rest.len() {
                        assert(rest[i] == nodes[i]);
                    }
                }
                if holds(rest, p) {
                    let i = index_of(rest, p);
                    assert(rest[i] == nodes[i]);
                }
                if p == last.path() {
                    assert(nodes[nodes.len() - 1].path() == p);
                }
            }
        }
    }
}

/// No key occurs twice in what a tree hands down to a node.
pub proof fn lemma_effective_distinct(t: Stored, p: Path)
    requires
        is_tree(t),
    ensures
        distinct(effective(t, p).headers),
        distinct(effective(t, p).query),
    decreases p.len(),
{
    if p.len() > 0 {
        lemma_effective_distinct(t, p.drop_last());
        let base = effective(t, p.drop_last());
        let over = stored(t, p);
        lemma_overlay(base.headers, over.headers, Seq::<char>::empty());
        lemma_overlay(base.query, over.query, Seq::<char>::empty());
    }
}

/// A header that a node on the way to `child` sets, and that no node
/// further down the way sets again, reaches `child` with the value of that
/// node. The node is the one `k` segments deep; it may be `child` itself.
pub proof fn lemma_header_inherited(t: Stored, child: Path, k: int, key: Seq<char>)
    requires
        is_tree(t),
        0 < k <= child.len(),
        has_key(stored(t, child.take(k)).headers, key),
        forall|j: int| k < j <= child.len() ==> !has_key(stored(t, child.take(j)).headers, key),
    ensures
        has_key(effective(t, child).headers, key),
        value_of(effective(t, child).headers, key) == value_of(
            stored(t, child.take(k)).headers,
            key,
        ),
    decreases child.len() - k,
{
    let above = child.drop_last();
    lemma_effective_distinct(t, above);
    lemma_overlay(effective(t, above).headers, stored(t, child).headers, key);
    assert(child.take(child.len() as int) == child);
    if k < child.len() {
        assert forall|j: int| k < j <= above.len() implies !has_key(
            stored(t, above.take(j)).headers,
            key,
        ) by {
            assert(above.take(j) == child.take(j));
        }
        assert(above.take(k) == child.take(k));
        lemma_header_inherited(t, above, k, key);
    }
}

/// A query parameter that a node on the way to `child` sets, and that no
/// node further down sets again, reaches `child` with the value of that
/// node.
pub proof fn lemma_query_inherited(t: Stored, child: Path, k: int, key: Seq<char>)
    requires
        is_tree(t),
        0 < k <= child.len(),
        has_key(stored(t, child.take(k)).query, key),
        forall|j: int| k < j <= child.len() ==> !has_key(stored(t, child.take(j)).query, key),
    ensures
        has_key(effective(t, child).query, key),
        value_of(effective(t, child).query, key) == value_of(stored(t, child.take(k)).query, key),
    decreases child.len() - k,
{
    let above = child.drop_last();
    lemma_effective_distinct(t, above);
    lemma_overlay(effective(t, above).query, stored(t, child).query, key);
    assert(child.take(child.len() as int) == child);
    if k < child.len() {
        assert forall|j: int| k < j <= above.len() implies !has_key(
            stored(t, above.take(j)).query,
            key,
        ) by {
            assert(above.take(j) == child.take(j));
        }
        assert(above.take(k) == child.take(k));
        lemma_query_inherited(t, above, k, key);
    }
}

/// The URL that reaches `child` is that of the nearest node on the way
/// that sets one: `child` itself where it does, else the node above, and
/// so on. The same holds of the method.
pub proof fn lemma_nearest_wins(t: Stored, child: Path, k: int)
    requires
        0 < k <= child.len(),
    ensures
        stored(t, child.take(k)).url.len() > 0 && (forall|j: int|
            k < j <= child.len() ==> stored(t, #[trigger] child.take(j)).url.len() == 0)
            ==> effective(t, child).url == stored(t, child.take(k)).url,
        stored(t, child.take(k)).method.len() > 0 && (forall|j: int|
            k < j <= child.len() ==> stored(t, #[trigger] child.take(j)).method.len() == 0)
            ==> effective(t, child).method == stored(t, child.take(k)).method,
    decreases child.len() - k,
{
    let above = child.drop_last();
    assert(child.take(child.len() as int) == child);
    if k < child.len() {
        lemma_nearest_wins(t, above, k);
        assert(above.take(k) == child.take(k));
        assert forall|j: int| k < j <= above.len() implies #[trigger] above.take(j) == child.take(
            j,
        ) by {}
    }
}

/// Where no node on the way to `child` sets a URL or a method, `child`
/// resolves to the empty URL and to the default method.
pub proof fn lemma_nothing_set(t: Stored, child: Path)
    ensures
        (forall|j: int| 0 < j <= child.len() ==> stored(t, #[trigger] child.take(j)).url.len() == 0)
            ==> effective(t, child).url.len() == 0,
        (forall|j: int|
            0 < j <= child.len() ==> stored(t, #[trigger] child.take(j)).method.len() == 0)
            ==> with_default_method(effective(t, child)).method
            == crate::endpoint::default_method(),
    decreases child.len(),
{
    if child.len() > 0 {
        let above = child.drop_last();
        lemma_nothing_set(t, above);
        assert(child.take(child.len() as int) == child);
        assert forall|j: int| 0 < j <= above.len() implies #[trigger] above.take(j) == child.take(
            j,
        ) by {}
    }
}

/// What a handle resolves to holds every header and every query parameter
/// that a node on the way to it sets and no node further down sets again,
/// with the value of that node; its URL is that of the nearest node on the
/// way that sets one, and so is its method. The node is the one `k`
/// segments deep; it may be the node of the handle itself.
pub proof fn lemma_resolve_inherits(t: Stored, child: Path, k: int, key: Seq<char>)
    requires
        is_tree(t),
        exists_in(t, child),
        0 < k <= child.len(),
    ensures
        resolved(t, child).is_ok(),
        has_key(stored(t, child.take(k)).headers, key) && (forall|j: int|
            k < j <= child.len() ==> !has_key(stored(t, #[trigger] child.take(j)).headers, key))
            ==> value_of(resolved(t, child).unwrap().headers, key) == value_of(
            stored(t, child.take(k)).headers,
            key,
        ),
        has_key(stored(t, child.take(k)).query, key) && (forall|j: int|
            k < j <= child.len() ==> !has_key(stored(t, #[trigger] child.take(j)).query, key))
            ==> value_of(resolved(t, child).unwrap().query, key) == value_of(
            stored(t, child.take(k)).query,
            key,
        ),
        stored(t, child.take(k)).url.len() > 0 && (forall|j: int|
            k < j <= child.len() ==> stored(t, #[trigger] child.take(j)).url.len() == 0)
            ==> resolved(t, child).unwrap().url == stored(t, child.take(k)).url,
        stored(t, child.take(k)).method.len() > 0 && (forall|j: int|
            k < j <= child.len() ==> stored(t, #[trigger] child.take(j)).method.len() == 0)
            ==> resolved(t, child).unwrap().method == stored(t, child.take(k)).method,
{
    lemma_nearest_wins(t, child, k);
    if has_key(stored(t, child.take(k)).headers, key) && (forall|j: int|
        k < j <= child.len() ==> !has_key(stored(t, #[trigger] child.take(j)).headers, key)) {
        lemma_header_inherited(t, child, k, key);
    }
    if has_key(stored(t, child.take(k)).query, key) && (forall|j: int|
        k < j <= child.len() ==> !has_key(stored(t, #[trigger] child.take(j)).query, key)) {
        lemma_query_inherited(t, child, k, key);
    }
}

/// Making nodes on the way to `a` changes what no node lays on what comes
/// from above, and takes no node away.
pub proof fn lemma_with_nodes(t: Stored, a: Path, q: Path)
    ensures
        stored(with_nodes(t, a), q) == stored(t, q),
        t.dom().contains(q) ==> with_nodes(t, a).dom().contains(q),
        with_nodes(t, a).dom().contains(q) ==> t.dom().contains(q) || (is_prefix(q, a) && q.len()
            > 0),
        a.len() > 0 ==> with_nodes(t, a).dom().contains(a),
    decreases a.len(),
{
    if a.len() > 0 {
        lemma_with_nodes(t, a.drop_last(), q);
        if is_prefix(q, a.drop_last()) {
            assert(a.take(q.len() as int) =~= a.drop_last().take(q.len() as int));
        }
        assert(a.take(a.len() as int) == a);
    }
}

/// Two trees in which the nodes on the way to `q` lay the same on what
/// comes from above hand the same down to `q`.
pub proof fn lemma_same_way(t: Stored, u: Stored, q: Path)
    requires
        forall|j: int| 0 < j <= q.len() ==> stored(t, #[trigger] q.take(j)) == stored(u, q.take(j)),
    ensures
        effective(t, q) == effective(u, q),
    decreases q.len(),
{
    if q.len() > 0 {
        let above = q.drop_last();
        assert forall|j: int| 0 < j <= above.len() implies stored(t, #[trigger] above.take(j))
            == stored(u, above.take(j)) by {
            assert(above.take(j) == q.take(j));
        }
        lemma_same_way(t, u, above);
        assert(q.take(q.len() as int) == q);
    }
}

/// A handle that was just written resolves, and to this: the endpoint that
/// was written, laid on what the nodes above hand down, with the default
/// method where neither sets one.
pub proof fn lemma_write_then_resolve(t: Stored, p: Path, e: EndpointView)
    requires
        !exists_in(t, p),
    ensures
        resolved(written(t, p, e), p) == Ok::<EndpointView, QuartzError>(
            with_default_method(inherit(effective(t, p.drop_last()), e)),
        ),
{
    let above = p.drop_last();
    let w = written(t, p, e);
    assert forall|j: int| 0 < j <= above.len() implies stored(w, #[trigger] above.take(j))
        == stored(t, above.take(j)) by {
        lemma_with_nodes(t, above, above.take(j));
        assert(above.take(j) != p);
    }
    lemma_same_way(w, t, above);
}

/// A handle that was just written resolves to what was written, where the
/// endpoint sets a URL and a method of its own and the nodes above hand
/// down no header and no query parameter that it does not set itself.
pub proof fn lemma_write_round_trip(t: Stored, p: Path, e: EndpointView)
    requires
        is_tree(t),
        !exists_in(t, p),
        distinct(e.headers),
        distinct(e.query),
        e.url.len() > 0,
        e.method.len() > 0,
        forall|k: Seq<char>| has_key(effective(t, p.drop_last()).headers, k) ==> has_key(e.headers, k),
        forall|k: Seq<char>| has_key(effective(t, p.drop_last()).query, k) ==> has_key(e.query, k),
    ensures
        resolved(written(t, p, e), p).is_ok(),
        resolved(written(t, p, e), p).unwrap().url == e.url,
        resolved(written(t, p, e), p).unwrap().method == e.method,
        resolved(written(t, p, e), p).unwrap().body == e.body,
        forall|k: Seq<char>|
            value_of(resolved(written(t, p, e), p).unwrap().headers, k) == value_of(e.headers, k),
        forall|k: Seq<char>|
            value_of(resolved(written(t, p, e), p).unwrap().query, k) == value_of(e.query, k),
{
    lemma_write_then_resolve(t, p, e);
    let base = effective(t, p.drop_last());
    lemma_effective_distinct(t, p.drop_last());
    assert forall|k: Seq<char>|
        value_of(crate::pairs::overlay(base.headers, e.headers), k) == value_of(
            e.headers,
            k,
        ) by {
        lemma_overlay(base.headers, e.headers, k);
    }
    assert forall|k: Seq<char>|
        value_of(crate::pairs::overlay(base.query, e.query), k) == value_of(e.query, k) by {
        lemma_overlay(base.query, e.query, k);
    }
}

/// After a node was removed, neither it nor any node that stood below it
/// resolves: each is not found. (The root is never removed.)
pub proof fn lemma_removed_not_found(t: Stored, h: Path, d: Path)
    requires
        is_prefix(h, d),
        d.len() > 0,
    ensures
        resolved(without_subtree(t, h), d) == Err::<EndpointView, QuartzError>(
            QuartzError::NotFound,
        ),
{
}

} // verus!
