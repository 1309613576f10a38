//! An indexed directed graph: vertices live in one vector and name each other
//! by position.

use crate::util::dfs::{
    close_above, dfs_inv, dfs_tree, enter, initial_state, lemma_enter, lemma_finish, lemma_initial,
    lemma_order_bounded, lemma_pop_stale, lemma_push, lemma_reachable_seen, lemma_seen_reachable,
    pending_ok, shape_ok, top_unseen, unseen_from, DfsState, DfsTree,
};
use crate::util::disjointset::DisjointSet;
use crate::util::domtree::{
    anchor, anchors, between, buckets_ok, idoms_ok, lemma_after_drain, lemma_after_link,
    lemma_all_resolved, lemma_anchor, lemma_drain_anchor, lemma_drain_prov, lemma_final_idoms,
    lemma_par_forest, lemma_push_entry, lemma_resolve, lemma_resolve_step, lemma_resolved_forest,
    lemma_semi_done, lemma_semi_frame, lemma_semi_init, lemma_semi_step, lemma_start, resolved_ok,
    semi_fact, semi_partial, semis_ok,
};
use crate::util::forest::{
    ancestor, is_forest, is_top, lemma_ancestor_antisym, lemma_ancestor_in_range,
    lemma_ancestor_self, lemma_ancestor_transitive, lemma_ancestor_unfold, lemma_top_fixed,
    lemma_walk_step, reaches_top, walk,
};
use crate::util::paths::{closed_adj, has_edge, mirrored, reachable};
use crate::util::postorder::{
    after_next, count_unseen, is_postorder, lemma_count_unseen, next_of, settle, Cursor, lemma_full_count, lemma_path_bounded,
    lemma_post_defer, lemma_post_descendants_first, lemma_post_done, lemma_post_enter,
    lemma_post_initial, lemma_post_push, lemma_post_root_above, lemma_post_stale, lemma_post_unwind, lemma_post_yield,
    post_inv, slot_ok, start_cursor, yields,
};
use crate::util::semidom::{is_dom_tree, is_idom};
use vstd::prelude::*;

verus! {

/// A vertex is named by its position in the graph.
pub type IndexType = usize;

/// Marks "no vertex" in scratch arrays; never the index of a live vertex.
pub const INVALID_INDEX: IndexType = usize::MAX;

/// Why a graph operation was refused.
#[derive(Debug, Clone, Copy, PartialEq, Eq, Structural)]
pub enum GraphError {
    /// The index named no vertex of the graph.
    OutOfRange(IndexType),
}

/// The targets of the edges at one side of a vertex, in the order they were
/// added. Up to two targets are held inline.
pub enum VertexEdge {
    /// Room for two targets, and how many of them are in use.
    CommonEdge([IndexType; 2], usize),
    /// Any number of targets.
    MultiwayEdge(Vec<IndexType>),
}

impl View for VertexEdge {
    type V = Seq<IndexType>;

    /// The targets in insertion order, repeats included.
    open spec fn view(&self) -> Seq<IndexType> {
        match self {
            VertexEdge::CommonEdge(targets, count) => if *count >= 2 {
                targets@
            } else {
                targets@.take(*count as int)
            },
            VertexEdge::MultiwayEdge(targets) => targets@,
        }
    }
}

impl Default for VertexEdge {
    fn default() -> (r: Self)
        ensures
            r@ == Seq::<IndexType>::empty(),
    {
        let r = VertexEdge::CommonEdge([INVALID_INDEX, INVALID_INDEX], 0);
        assert(r@ =~= Seq::<IndexType>::empty());
        r
    }
}

impl VertexEdge {
    /// Appends `target`.
    pub fn add_link(&mut self, target: IndexType)
        ensures
            final(self)@ == old(self)@.push(target),
    {
        match self {
            VertexEdge::CommonEdge(targets, count) => {
                if *count < 2 {
                    targets[*count] = target;
                    *count += 1;
                } else {
                    *self = VertexEdge::MultiwayEdge(vec![targets[0], targets[1], target]);
                }
            },
            VertexEdge::MultiwayEdge(targets) => targets.push(target),
        }
        assert(final(self)@ =~= old(self)@.push(target));
    }

    /// The targets as a slice.
    pub fn targets(&self) -> (r: &[IndexType])
        ensures
            r@ == self@,
    {
        match self {
            VertexEdge::CommonEdge(targets, count) => {
                let n: usize = if *count < 2 {
                    *count
                } else {
                    2
                };
                let s = targets.as_slice();
                let r = &s[0..n];
                assert(r@ =~= self@);
                r
            },
            VertexEdge::MultiwayEdge(targets) => targets.as_slice(),
        }
    }
}

/// One vertex: its outgoing and incoming edges and, unless it is a
/// pseudo-vertex, a payload.
pub struct Vertex<T> {
    out_edges: VertexEdge,
    in_edges: VertexEdge,
    data: Option<T>,
}

impl<T> Vertex<T> {
    /// Targets of the outgoing edges.
    pub closed spec fn out_edges(&self) -> Seq<IndexType> {
        self.out_edges@
    }

    /// Sources of the incoming edges.
    pub closed spec fn in_edges(&self) -> Seq<IndexType> {
        self.in_edges@
    }

    /// The payload, absent on a pseudo-vertex.
    pub closed spec fn payload(&self) -> Option<T> {
        self.data
    }

    /// The neighbours in one direction: successors when `fwd`, predecessors
    /// otherwise.
    pub open spec fn edges(&self, fwd: bool) -> Seq<IndexType> {
        if fwd {
            self.out_edges()
        } else {
            self.in_edges()
        }
    }

    /// A vertex without edges.
    fn new(data: Option<T>) -> (v: Self)
        ensures
            v.out_edges() == Seq::<IndexType>::empty(),
            v.in_edges() == Seq::<IndexType>::empty(),
            v.payload() == data,
    {
        Vertex { out_edges: VertexEdge::default(), in_edges: VertexEdge::default(), data }
    }

    /// The neighbours in one direction, in insertion order.
    pub fn edge_iter(&self, fwd: bool) -> (r: &[IndexType])
        ensures
            r@ == self.edges(fwd),
    {
        if fwd {
            self.out_edges.targets()
        } else {
            self.in_edges.targets()
        }
    }

    /// Appends `target` to the successors.
    pub fn link_out(&mut self, target: IndexType)
        ensures
            final(self).out_edges() == old(self).out_edges().push(target),
            final(self).in_edges() == old(self).in_edges(),
            final(self).payload() == old(self).payload(),
    {
        self.out_edges.add_link(target);
    }

    /// Appends `target` to the predecessors.
    pub fn link_in(&mut self, target: IndexType)
        ensures
            final(self).in_edges() == old(self).in_edges().push(target),
            final(self).out_edges() == old(self).out_edges(),
            final(self).payload() == old(self).payload(),
    {
        self.in_edges.add_link(target);
    }

    /// The payload, if the vertex has one.
    pub fn data(&self) -> (r: Option<&T>)
        ensures
            r.is_some() == self.payload().is_some(),
            r.is_some() ==> *r.unwrap() == self.payload().unwrap(),
    {
        self.data.as_ref()
    }

    /// The payload for writing, if the vertex has one. The edges stay as
    /// they are.
    pub fn data_mut(&mut self) -> (r: Option<&mut T>)
        ensures
            r.is_some() == old(self).payload().is_some(),
            r.is_some() ==> *r.unwrap() == old(self).payload().unwrap(),
            final(self).payload() == (match r {
                Some(p) => Some(*final(p)),
                None => None,
            }),
            final(self).out_edges() == old(self).out_edges(),
            final(self).in_edges() == old(self).in_edges(),
    {
        self.data.as_mut()
    }

    /// Whether the vertex is without payload.
    pub fn is_pseudo(&self) -> (r: bool)
        ensures
            r == self.payload().is_none(),
    {
        self.data.is_none()
    }
}

/// A directed graph that owns its vertices. Vertex 0 is the root and vertex 1
/// the terminator, both without payload; every vertex added later carries one.
pub struct Graph<T> {
    vertices: Vec<Vertex<T>>,
    root: IndexType,
    term: IndexType,
}

impl<T> View for Graph<T> {
    type V = Seq<Vertex<T>>;

    /// The vertices by index.
    closed spec fn view(&self) -> Seq<Vertex<T>> {
        self.vertices@
    }
}

impl<T> Default for Graph<T> {
    /// The graph of the two pseudo-vertices, without edges.
    fn default() -> (g: Self)
        ensures
            g.wf(),
            g@.len() == 2,
            g@[0].out_edges().len() == 0,
            g@[0].in_edges().len() == 0,
            g@[1].out_edges().len() == 0,
            g@[1].in_edges().len() == 0,
    {
        let mut vertices: Vec<Vertex<T>> = Vec::new();
        vertices.push(Vertex::new(None));
        vertices.push(Vertex::new(None));
        let g = Graph { vertices, root: 0, term: 1 };
        proof {
            assert(mirrored(g.adj(true), g.adj(false))) by {
                assert forall|a: int, b: int| #[trigger]
                    has_edge(g.adj(true), a, b) <==> has_edge(g.adj(false), b, a) by {}
            }
        }
        g
    }
}

impl<T> Graph<T> {
    /// The index of the root.
    pub closed spec fn spec_root(&self) -> IndexType {
        self.root
    }

    /// The index of the terminator.
    pub closed spec fn spec_term(&self) -> IndexType {
        self.term
    }

    /// The neighbour lists of all vertices in one direction.
    pub open spec fn adj(&self, fwd: bool) -> Seq<Seq<IndexType>> {
        Seq::new(self@.len(), |v: int| self@[v].edges(fwd))
    }

    /// The vertex a traversal in the given direction starts from.
    pub open spec fn start(&self, fwd: bool) -> IndexType {
        if fwd {
            self.spec_root()
        } else {
            self.spec_term()
        }
    }

    /// Root and terminator are vertices 0 and 1 and the only ones without
    /// payload; every edge names a vertex of the graph and is recorded at
    /// both of its ends.
    pub open spec fn wf(&self) -> bool {
        &&& self@.len() >= 2
        &&& self.spec_root() == 0
        &&& self.spec_term() == 1
        &&& forall|v: int| 0 <= v < self@.len() ==> (#[trigger] self@[v]).payload().is_none() == (v < 2)
        &&& closed_adj(self.adj(true))
        &&& closed_adj(self.adj(false))
        &&& mirrored(self.adj(true), self.adj(false))
    }

    /// The part of well-formedness that speaks of payloads and outgoing
    /// edges: root and terminator are vertices 0 and 1 and the only ones
    /// without payload, and every outgoing edge names a vertex of the graph.
    pub open spec fn forward_ok(&self) -> bool {
        &&& self@.len() >= 2
        &&& self.spec_root() == 0
        &&& self.spec_term() == 1
        &&& forall|v: int| 0 <= v < self@.len() ==> (#[trigger] self@[v]).payload().is_none() == (v < 2)
        &&& closed_adj(self.adj(true))
    }

    /// Whether the graph is as `forward_ok` asks.
    pub fn check_forward(&self) -> (r: bool)
        ensures
            r == self.forward_ok(),
    {
        let n = self.vertices.len();
        if n < 2 || self.root != 0 || self.term != 1 {
            return false;
        }
        let ghost adj = self.adj(true);
        let mut v: usize = 0;
        while v < n
            invariant
                n == self@.len(),
                n >= 2,
                adj == self.adj(true),
                v <= n,
                forall|x: int| 0 <= x < v ==> (#[trigger] self@[x]).payload().is_none() == (x < 2),
                forall|x: int, i: int|
                    0 <= x < v && 0 <= i < adj[x].len() ==> (#[trigger] adj[x][i]) < n,
            decreases n - v,
        {
            if self.vertices[v].is_pseudo() != (v < 2) {
                return false;
            }
            let es = self.vertices[v].edge_iter(true);
            let mut i: usize = 0;
            while i < es.len()
                invariant
                    n == self@.len(),
                    adj == self.adj(true),
                    v < n,
                    es@ == adj[v as int],
                    i <= es.len(),
                    forall|j: int| 0 <= j < i ==> (#[trigger] adj[v as int][j]) < n,
                decreases es.len() - i,
            {
                if es[i] >= n {
                    assert(!(adj[v as int][i as int] < adj.len()));
                    return false;
                }
                i += 1;
            }
            v += 1;
        }
        true
    }

    /// The index of the root.
    #[verifier::when_used_as_spec(spec_root)]
    pub fn root(&self) -> (r: IndexType)
        ensures
            r == self.spec_root(),
    {
        self.root
    }

    /// The index of the terminator.
    #[verifier::when_used_as_spec(spec_term)]
    pub fn term(&self) -> (r: IndexType)
        ensures
            r == self.spec_term(),
    {
        self.term
    }

    /// The vertex at `id`, or `None` if `id` names no vertex.
    pub fn vert(&self, id: IndexType) -> (r: Option<&Vertex<T>>)
        ensures
            id < self@.len() ==> r == Some(&self@[id as int]),
            id >= self@.len() ==> r.is_none(),
    {
        if id < self.vertices.len() {
            Some(&self.vertices[id])
        } else {
            None
        }
    }

    /// The vertex at `id` for writing, or `None` if `id` names no vertex.
    /// Nothing else in the graph changes.
    pub fn vert_mut(&mut self, id: IndexType) -> (r: Option<&mut Vertex<T>>)
        ensures
            final(self).spec_root() == old(self).spec_root(),
            final(self).spec_term() == old(self).spec_term(),
            id >= old(self)@.len() ==> r.is_none() && final(self)@ == old(self)@,
            id < old(self)@.len() ==> r.is_some() && *r.unwrap() == old(self)@[id as int]
                && final(self)@ == old(self)@.update(id as int, *final(r.unwrap())),
    {
        if id < self.vertices.len() {
            Some(&mut self.vertices[id])
        } else {
            None
        }
    }

    /// The number of vertices, root and terminator included.
    pub fn size(&self) -> (n: usize)
        ensures
            n == self@.len(),
    {
        self.vertices.len()
    }

    /// Appends a vertex that carries `val` and has no edges; returns its index.
    pub fn add_vert(&mut self, val: T) -> (id: IndexType)
        ensures
            id == old(self)@.len(),
            final(self)@.len() == old(self)@.len() + 1,
            forall|v: int| 0 <= v < old(self)@.len() ==> final(self)@[v] == old(self)@[v],
            final(self)@[id as int].payload() == Some(val),
            final(self)@[id as int].out_edges().len() == 0,
            final(self)@[id as int].in_edges().len() == 0,
            final(self).spec_root() == old(self).spec_root(),
            final(self).spec_term() == old(self).spec_term(),
            old(self).wf() ==> final(self).wf(),
            forall|fwd: bool, a: int, b: int| #[trigger]
                has_edge(final(self).adj(fwd), a, b) <==> has_edge(old(self).adj(fwd), a, b),
    {
        self.vertices.push(Vertex::new(Some(val)));
        proof {
            assert forall|fwd: bool, a: int, b: int| #[trigger]
                has_edge(final(self).adj(fwd), a, b) <==> has_edge(old(self).adj(fwd), a, b) by {
                let x0 = old(self).adj(fwd);
                let x1 = final(self).adj(fwd);
                if has_edge(x1, a, b) {
                    let i = choose|i: int| 0 <= i < x1[a].len() && #[trigger] x1[a][i] == b;
                    assert(a < x0.len());
                    assert(x0[a][i] == b);
                }
                if has_edge(x0, a, b) {
                    let i = choose|i: int| 0 <= i < x0[a].len() && #[trigger] x0[a][i] == b;
                    assert(x1[a][i] == b);
                }
            }
            let a0 = old(self).adj(true);
            let a1 = final(self).adj(true);
            let b0 = old(self).adj(false);
            let b1 = final(self).adj(false);
            if old(self).wf() {
                assert forall|v: int, i: int| 0 <= v < a1.len() && 0 <= i < a1[v].len() implies (
                #[trigger] a1[v][i]) < a1.len() by {
                    assert(a1[v] == a0[v]);
                    assert(a0[v][i] < a0.len());
                }
                assert forall|v: int, i: int| 0 <= v < b1.len() && 0 <= i < b1[v].len() implies (
                #[trigger] b1[v][i]) < b1.len() by {
                    assert(b1[v] == b0[v]);
                    assert(b0[v][i] < b0.len());
                }
                assert forall|a: int, b: int| #[trigger]
                    has_edge(a1, a, b) <==> has_edge(b1, b, a) by {
                    if has_edge(a1, a, b) {
                        assert(a1[a] == a0[a]);
                        assert(has_edge(a0, a, b));
                        assert(has_edge(b0, b, a));
                        assert(b1[b] == b0[b]);
                    }
                    if has_edge(b1, b, a) {
                        assert(b1[b] == b0[b]);
                        assert(has_edge(b0, b, a));
                        assert(has_edge(a0, a, b));
                        assert(a1[a] == a0[a]);
                    }
                }
            }
        }
        self.vertices.len() - 1
    }

    /// Records the edge `from -> to` at both ends: among the successors of
    /// `from` and among the predecessors of `to`. Nothing changes when either
    /// index names no vertex; the first such index is reported.
    pub fn link(&mut self, from: IndexType, to: IndexType) -> (r: Result<(), GraphError>)
        ensures
            final(self).spec_root() == old(self).spec_root(),
            final(self).spec_term() == old(self).spec_term(),
            final(self)@.len() == old(self)@.len(),
            r == (if from >= old(self)@.len() {
                Err::<(), GraphError>(GraphError::OutOfRange(from))
            } else if to >= old(self)@.len() {
                Err::<(), GraphError>(GraphError::OutOfRange(to))
            } else {
                Ok::<(), GraphError>(())
            }),
            r.is_err() ==> final(self)@ == old(self)@,
            r.is_ok() ==> {
                &&& forall|v: int|
                    0 <= v < old(self)@.len() ==> (#[trigger] final(self)@[v]).payload() == old(
                        self,
                    )@[v].payload()
                &&& forall|v: int|
                    0 <= v < old(self)@.len() ==> (#[trigger] final(self)@[v]).out_edges() == (if v
                        == from {
                        old(self)@[v].out_edges().push(to)
                    } else {
                        old(self)@[v].out_edges()
                    })
                &&& forall|v: int|
                    0 <= v < old(self)@.len() ==> (#[trigger] final(self)@[v]).in_edges() == (if v
                        == to {
                        old(self)@[v].in_edges().push(from)
                    } else {
                        old(self)@[v].in_edges()
                    })
            },
            old(self).wf() ==> final(self).wf(),
            r.is_ok() ==> forall|a: int, b: int| #[trigger]
                has_edge(final(self).adj(true), a, b) <==> (has_edge(old(self).adj(true), a, b) || (
                a == from && b == to)),
            r.is_ok() ==> forall|a: int, b: int| #[trigger]
                has_edge(final(self).adj(false), a, b) <==> (has_edge(old(self).adj(false), a, b)
                    || (a == to && b == from)),
    {
        let n = self.vertices.len();
        if from >= n {
            return Err(GraphError::OutOfRange(from));
        }
        if to >= n {
            return Err(GraphError::OutOfRange(to));
        }
        self.vertices[from].link_out(to);
        self.vertices[to].link_in(from);
        proof {
            assert forall|a: int, b: int| #[trigger]
                has_edge(final(self).adj(true), a, b) <==> (has_edge(old(self).adj(true), a, b) || (
                a == from && b == to)) by {
                lemma_pushed_edge(old(self).adj(true), final(self).adj(true), from as int, to, a, b);
            }
            assert forall|a: int, b: int| #[trigger]
                has_edge(final(self).adj(false), a, b) <==> (has_edge(old(self).adj(false), a, b)
                    || (a == to && b == from)) by {
                lemma_pushed_edge(old(self).adj(false), final(self).adj(false), to as int, from, a, b);
            }
            if old(self).wf() {
                lemma_link_keeps_edges(
                    old(self).adj(true),
                    final(self).adj(true),
                    old(self).adj(false),
                    final(self).adj(false),
                    from,
                    to,
                );
            }
        }
        Ok(())
    }

    /// A cursor for a depth-first walk from the root that yields the
    /// vertices in preorder, following successors when `fwd` and
    /// predecessors otherwise.
    pub fn preorder_iter(&self, fwd: bool) -> (it: PreorderIterator)
        requires
            self.wf(),
        ensures
            it.inv(self.adj(fwd)),
            it.origin() == self.spec_root(),
            it.direction() == fwd,
            it.tree() == initial_state(self@.len()).tree,
            it.pending() == seq![(self.spec_root(), self.spec_root())],
    {
        PreorderIterator::new(self.root(), self.size(), fwd)
    }

    /// The vertex with the smallest semidominator number on the tree path
    /// from `v` up to the representative of its set, the representative left
    /// out; `v` itself if it is the representative. The chain of `v` in the
    /// union-find forest is compressed on the way.
    fn min_vert(
        v: IndexType,
        sdom: &[IndexType],
        parent: &[IndexType],
        forest: &mut DisjointSet,
    ) -> (u: IndexType)
        requires
            is_forest(parent@),
            old(forest).wf(),
            old(forest)@.len() == parent@.len(),
            sdom@.len() == parent@.len(),
            v < parent@.len(),
            ancestor(parent@, old(forest)@[v as int] as int, v as int),
        ensures
            final(forest).wf(),
            final(forest)@ == old(forest)@,
            u < parent@.len(),
            old(forest)@[v as int] == v ==> u == v,
            old(forest)@[v as int] != v ==> between(
                parent@,
                v as int,
                old(forest)@[v as int] as int,
                u as int,
            ) && forall|x: int| #[trigger]
                between(parent@, v as int, old(forest)@[v as int] as int, x) ==> sdom@[u as int]
                    <= sdom@[x],
    {
        let r = forest.root_compress(v);
        if r == v {
            return v;
        }
        let ghost par = parent@;
        let mut min_u: usize = v;
        let mut u: usize = parent[v];
        let ghost mut k: nat = 0;
        proof {
            lemma_ancestor_in_range(par, r as int, v as int);
            lemma_ancestor_self(par, v as int);
            lemma_ancestor_unfold(par, r as int, v as int);
            lemma_ancestor_unfold(par, u as int, v as int);
            lemma_ancestor_self(par, u as int);
            k = choose|k: nat| #[trigger] walk(par, u as int, k) == r as int;
            assert forall|x: int| ancestor(par, x, v as int) && !ancestor(
                par,
                x,
                u as int,
            ) implies sdom@[min_u as int] <= sdom@[x] by {
                lemma_ancestor_unfold(par, x, v as int);
            }
        }
        while u != r
            invariant
                par == parent@,
                is_forest(par),
                sdom@.len() == par.len(),
                u < par.len(),
                min_u < par.len(),
                v < par.len(),
                r < par.len(),
                r != v,
                ancestor(par, u as int, v as int),
                walk(par, u as int, k) == r as int,
                between(par, v as int, r as int, min_u as int),
                forall|x: int| #[trigger]
                    ancestor(par, x, v as int) && !ancestor(par, x, u as int) ==> sdom@[min_u as int]
                        <= sdom@[x],
            decreases k,
        {
            let ghost prev_min = min_u;
            if sdom[u] < sdom[min_u] {
                min_u = u;
            }
            let nxt = parent[u];
            proof {
                assert(ancestor(par, r as int, u as int));
                assert(k > 0) by {
                    if k == 0 {
                        assert(walk(par, u as int, 0) == u);
                    }
                }
                lemma_walk_step(par, u as int, (k - 1) as nat);
                lemma_ancestor_self(par, nxt as int);
                lemma_ancestor_unfold(par, nxt as int, u as int);
                lemma_ancestor_transitive(par, nxt as int, u as int, v as int);
                assert forall|x: int| #[trigger]
                    ancestor(par, x, v as int) && !ancestor(par, x, nxt as int) implies sdom@[min_u as int]
                    <= sdom@[x] by {
                    lemma_ancestor_unfold(par, x, u as int);
                    if x != u {
                        assert(!ancestor(par, x, u as int));
                        assert(sdom@[prev_min as int] <= sdom@[x]);
                    }
                }
                k = (k - 1) as nat;
            }
            u = nxt;
        }
        proof {
            assert forall|x: int| #[trigger] between(par, v as int, r as int, x) implies sdom@[min_u as int]
                <= sdom@[x] by {
                if ancestor(par, x, r as int) {
                    lemma_ancestor_in_range(par, x, v as int);
                    assert(reaches_top(par, x));
                    lemma_ancestor_antisym(par, x, r as int);
                }
            }
        }
        min_u
    }

    /// Numbers what can be reached from the start in preorder: each
    /// vertex reached gets its number as its first semidominator and its
    /// tree parent, and `dfs2vert` maps the numbers back.
    fn number_vertices(
        &self,
        fwd: bool,
        sdom: &mut Vec<IndexType>,
        dfs2vert: &mut Vec<IndexType>,
        parent: &mut Vec<IndexType>,
    ) -> (r: (usize, Ghost<DfsTree>))
        requires
            self.wf(),
            old(sdom)@ == Seq::new(self@.len(), |v: int| INVALID_INDEX),
            old(dfs2vert)@.len() == self@.len(),
            old(parent)@ == Seq::new(self@.len(), |v: int| v as usize),
        ensures
            dfs_tree(self.adj(fwd), self.start(fwd), r.1@),
            r.0 == r.1@.order.len(),
            1 <= r.0 <= self@.len(),
            final(parent)@ == r.1@.par,
            final(dfs2vert)@.len() == self@.len(),
            forall|j: int| 0 <= j < r.0 ==> final(dfs2vert)@[j] == r.1@.order[j],
            semis_ok(self.adj(fwd), r.1@, final(sdom)@, r.0 - 1),
    {
        let n = self.vertices.len();
        let start = if fwd {
            self.root
        } else {
            self.term
        };
        let ghost adj = self.adj(fwd);
        let mut pre = PreorderIterator::new(start, n, fwd);
        let mut count: usize = 0;
        assert(pre.inv(adj));
        assert(parent@ =~= pre.tree().par);
        loop
            invariant
                self.wf(),
                adj == self.adj(fwd),
                n == adj.len(),
                n == self.vertices@.len(),
                start == self.start(fwd),
                pre.inv(adj),
                pre.direction() == fwd,
                pre.origin() == start,
                count == pre.tree().order.len(),
                count <= n,
                sdom@.len() == n,
                dfs2vert@.len() == n,
                parent@ == pre.tree().par,
                forall|v: int|
                    0 <= v < n ==> #[trigger] sdom@[v] == (if pre.tree().seen[v] {
                        pre.tree().num[v] as usize
                    } else {
                        INVALID_INDEX
                    }),
                forall|j: int| 0 <= j < count ==> dfs2vert@[j] == pre.tree().order[j],
            decreases n - count,
        {
            let ghost t0 = pre.tree();
            match pre.next(self) {
                None => {
                    proof {
                        let t = pre.tree();
                        assert forall|v: int| 0 <= v < adj.len() implies if !t.seen[v] {
                            #[trigger] sdom@[v] == usize::MAX
                        } else if t.num[v] <= count - 1 {
                            sdom@[v] == t.num[v]
                        } else {
                            semi_fact(adj, t, v, sdom@[v] as int)
                        } by {}
                    }
                    return (count, Ghost(pre.tree()));
                },
                Some((cv, pv)) => {
                    proof {
                        lemma_order_bounded(n as nat, pre.tree());
                    }
                    sdom[cv] = count;
                    dfs2vert[count] = cv;
                    parent[cv] = pv;
                    count += 1;
                },
            }
        }
    }

    /// Finds the semidominator of `w` from its predecessors. Every vertex
    /// numbered above `w` has been processed.
    fn semi_of(
        &self,
        fwd: bool,
        w: IndexType,
        sdom: &mut Vec<IndexType>,
        parent: &Vec<IndexType>,
        forest: &mut DisjointSet,
        Ghost(t): Ghost<DfsTree>,
    )
        requires
            self.wf(),
            dfs_tree(self.adj(fwd), self.start(fwd), t),
            parent@ == t.par,
            w < self@.len(),
            t.seen[w as int],
            w != self.start(fwd),
            semis_ok(self.adj(fwd), t, old(sdom)@, t.num[w as int] as int),
            old(forest).wf(),
            old(forest)@ == anchors(t, t.num[w as int] as int),
        ensures
            final(forest).wf(),
            final(forest)@ == old(forest)@,
            final(sdom)@ == old(sdom)@.update(w as int, final(sdom)@[w as int]),
            semi_fact(self.adj(fwd), t, w as int, final(sdom)@[w as int] as int),
    {
        let ghost adj = self.adj(fwd);
        let ghost radj = self.adj(!fwd);
        let ghost s = self.start(fwd);
        let ghost sdom0 = sdom@;
        let ghost i = t.num[w as int] as int;
        let es = self.vertices[w].edge_iter(!fwd);
        let mut e: usize = 0;
        proof {
            lemma_par_forest(adj, s, t);
            assert(mirrored(adj, radj));
            assert(sdom@ =~= sdom0.update(w as int, sdom@[w as int]));
            lemma_semi_init(adj, radj, t, w as int);
        }
        while e < es.len()
            invariant
                self.wf(),
                adj == self.adj(fwd),
                radj == self.adj(!fwd),
                mirrored(adj, radj),
                closed_adj(radj),
                s == self.start(fwd),
                dfs_tree(adj, s, t),
                is_forest(t.par),
                parent@ == t.par,
                w < adj.len(),
                t.seen[w as int],
                w != s,
                i == t.num[w as int],
                es@ == radj[w as int],
                e <= es.len(),
                semis_ok(adj, t, sdom0, i),
                sdom@ == sdom0.update(w as int, sdom@[w as int]),
                semi_partial(adj, radj, t, w as int, e as int, sdom@[w as int] as int),
                forest.wf(),
                forest@ == anchors(t, i),
            decreases es.len() - e,
        {
            let v = es[e];
            proof {
                assert(radj[w as int][e as int] < radj.len());
                lemma_anchor(adj, s, t, v as int, i);
            }
            let u = Self::min_vert(v, sdom.as_slice(), parent.as_slice(), forest);
            proof {
                lemma_semi_step(adj, radj, s, t, sdom0, sdom@, w as int, e as int, u as int);
            }
            let c = sdom[u];
            if c < sdom[w] {
                sdom[w] = c;
            }
            e += 1;
        }
        proof {
            lemma_semi_done(adj, radj, s, t, w as int, sdom@[w as int] as int);
        }
    }

    /// Gives every vertex that waits in the bucket of `p`, the parent of the
    /// vertex `w` processed last, its provisional dominator.
    fn drain_bucket(
        p: IndexType,
        sdom: &Vec<IndexType>,
        parent: &Vec<IndexType>,
        forest: &mut DisjointSet,
        bucket: &mut Vec<Vec<IndexType>>,
        idom: &mut Vec<IndexType>,
        Ghost(adj): Ghost<Seq<Seq<IndexType>>>,
        Ghost(s): Ghost<IndexType>,
        Ghost(t): Ghost<DfsTree>,
        Ghost(w): Ghost<IndexType>,
        Ghost(done0): Ghost<Seq<bool>>,
    ) -> (r: Ghost<Seq<bool>>)
        requires
            dfs_tree(adj, s, t),
            parent@ == t.par,
            w < adj.len(),
            t.seen[w as int],
            w != s,
            p == t.par[w as int],
            semis_ok(adj, t, sdom@, t.num[w as int] - 1),
            old(forest).wf(),
            old(forest)@ == anchors(t, t.num[w as int] - 1),
            buckets_ok(
                t,
                sdom@,
                lists(old(bucket)@),
                done0,
                t.num[w as int] - 1,
                t.num[w as int] as int,
            ),
            idoms_ok(adj, t, sdom@, old(idom)@, done0, t.num[w as int] - 1),
        ensures
            final(forest).wf(),
            final(forest)@ == old(forest)@,
            buckets_ok(
                t,
                sdom@,
                lists(final(bucket)@),
                r@,
                t.num[w as int] - 1,
                t.num[w as int] - 1,
            ),
            idoms_ok(adj, t, sdom@, final(idom)@, r@, t.num[w as int] - 1),
    {
        let ghost mut done = done0;
        let ghost i = t.num[w as int] as int;
        proof {
            lemma_par_forest(adj, s, t);
            lemma_start(adj, s, t);
        }
        while bucket[p].len() > 0
            invariant
                dfs_tree(adj, s, t),
                is_forest(t.par),
                parent@ == t.par,
                w < adj.len(),
                t.seen[w as int],
                w != s,
                p == t.par[w as int],
                p < adj.len(),
                i == t.num[w as int],
                semis_ok(adj, t, sdom@, i - 1),
                forest.wf(),
                forest@ == anchors(t, i - 1),
                buckets_ok(t, sdom@, lists(bucket@), done, i - 1, i),
                idoms_ok(adj, t, sdom@, idom@, done, i - 1),
            decreases bucket@[p as int]@.len(),
        {
            let ghost b0 = lists(bucket@);
            let v = bucket[p].pop().unwrap();
            proof {
                assert(b0[p as int].last() == v);
                assert(b0[p as int][b0[p as int].len() - 1] == v);
                assert(lists(bucket@) =~= b0.update(p as int, b0[p as int].drop_last()));
                lemma_drain_anchor(adj, s, t, sdom@, w as int, v as int);
                lemma_anchor(adj, s, t, v as int, i - 1);
            }
            let u = Self::min_vert(v, sdom.as_slice(), parent.as_slice(), forest);
            let d = if sdom[u] < sdom[v] {
                u
            } else {
                p
            };
            proof {
                lemma_drain_prov(adj, s, t, sdom@, w as int, v as int, u as int, d as int);
                lemma_resolve(adj, t, sdom@, b0, idom@, done, i - 1, i, p as int, d);
                done = done.update(v as int, true);
            }
            idom[v] = d;
        }
        proof {
            lemma_after_drain(adj, s, t, sdom@, lists(bucket@), done, w as int);
        }
        Ghost(done)
    }

    /// The dominator tree, by vertex: forward from the root when `fwd`,
    /// backward from the terminator otherwise. Every vertex that can be
    /// reached from the start holds its immediate dominator: another vertex
    /// that lies on every path from the start to it, and that every other
    /// such vertex dominates in turn. The start and what cannot be reached
    /// from it hold themselves.
    pub fn compute_dom_tree(&self, fwd: bool) -> (idom: Vec<IndexType>)
        requires
            self.wf(),
        ensures
            idom@.len() == self@.len(),
            is_dom_tree(self.adj(fwd), self.start(fwd) as int, idom@),
    {
        let n = self.size();
        let start = if fwd {
            self.root
        } else {
            self.term
        };
        let ghost adj = self.adj(fwd);
        let mut idom = identity(n);
        let mut sdom = filled(INVALID_INDEX, n);
        let mut dfs2vert = filled(0usize, n);
        let mut parent = identity(n);
        let (count, Ghost(t)) = self.number_vertices(fwd, &mut sdom, &mut dfs2vert, &mut parent);
        let mut bucket = empty_lists(n);
        let mut forest = DisjointSet::new(n);
        let ghost mut done: Seq<bool> = Seq::new(n as nat, |v: int| false);
        let mut w_dfs: usize = count - 1;
        proof {
            lemma_start(adj, start, t);
            assert(forest@ =~= anchors(t, w_dfs as int)) by {
                assert forall|v: int| 0 <= v < n implies anchor(t, v, w_dfs as int) == v by {
                    lemma_anchor(adj, start, t, v, w_dfs as int);
                }
            }
            assert(buckets_ok(t, sdom@, lists(bucket@), done, w_dfs as int, w_dfs as int));
            assert(idoms_ok(adj, t, sdom@, idom@, done, w_dfs as int));
        }
        while w_dfs > 0
            invariant
                self.wf(),
                adj == self.adj(fwd),
                start == self.start(fwd),
                n == adj.len(),
                dfs_tree(adj, start, t),
                count == t.order.len(),
                w_dfs < count,
                count <= n,
                parent@ == t.par,
                dfs2vert@.len() == n,
                forall|j: int| 0 <= j < count ==> dfs2vert@[j] == t.order[j],
                semis_ok(adj, t, sdom@, w_dfs as int),
                forest.wf(),
                forest@ == anchors(t, w_dfs as int),
                buckets_ok(t, sdom@, lists(bucket@), done, w_dfs as int, w_dfs as int),
                idoms_ok(adj, t, sdom@, idom@, done, w_dfs as int),
            decreases w_dfs,
        {
            let w = dfs2vert[w_dfs];
            proof {
                assert(t.order[w_dfs as int] == w);
                assert(t.num[t.order[w_dfs as int] as int] == w_dfs);
                lemma_start(adj, start, t);
            }
            let ghost sdom0 = sdom@;
            self.semi_of(fwd, w, &mut sdom, &parent, &mut forest, Ghost(t));
            proof {
                lemma_semi_frame(
                    adj,
                    start,
                    t,
                    sdom0,
                    lists(bucket@),
                    idom@,
                    done,
                    w as int,
                    sdom@[w as int],
                );
            }
            let p = parent[w];
            forest.link(w, p);
            proof {
                lemma_after_link(adj, start, t, w as int);
                lemma_push_entry(adj, start, t, sdom@, lists(bucket@), done, w as int);
            }
            let b = dfs2vert[sdom[w]];
            let ghost b0 = lists(bucket@);
            bucket[b].push(w);
            proof {
                assert(lists(bucket@) =~= b0.update(b as int, b0[b as int].push(w)));
            }
            let Ghost(done2) = Self::drain_bucket(
                p,
                &sdom,
                &parent,
                &mut forest,
                &mut bucket,
                &mut idom,
                Ghost(adj),
                Ghost(start),
                Ghost(t),
                Ghost(w),
                Ghost(done),
            );
            proof {
                done = done2;
            }
            w_dfs -= 1;
        }
        proof {
            lemma_all_resolved(adj, start, t, sdom@, lists(bucket@), idom@, done);
        }
        let mut i: usize = 1;
        while i < count
            invariant
                adj == self.adj(fwd),
                start == self.start(fwd),
                n == adj.len(),
                dfs_tree(adj, start, t),
                count == t.order.len(),
                count <= n,
                1 <= i <= count,
                dfs2vert@.len() == n,
                forall|j: int| 0 <= j < count ==> dfs2vert@[j] == t.order[j],
                semis_ok(adj, t, sdom@, 0),
                resolved_ok(adj, start, t, sdom@, idom@, i as int),
            decreases count - i,
        {
            let w = dfs2vert[i];
            proof {
                assert(t.order[i as int] == w);
                assert(t.num[t.order[i as int] as int] == i);
                lemma_start(adj, start, t);
                assert(semi_fact(adj, t, w as int, sdom@[w as int] as int));
                lemma_resolve_step(adj, start, t, sdom@, idom@, w as int);
            }
            let sw = dfs2vert[sdom[w]];
            if idom[w] != sw {
                let d = idom[w];
                let d2 = idom[d];
                idom[w] = d2;
            } else {
                proof {
                    assert(idom@ =~= idom@.update(w as int, idom@[w as int]));
                }
            }
            i += 1;
        }
        idom[start] = start;
        proof {
            lemma_start(adj, start, t);
            lemma_resolved_forest(adj, start, t, sdom@, idom@, count as int);
            assert forall|v: int| 0 <= v < n && !reachable(adj, start as int, v) implies #[trigger] idom@[v]
                == v by {
                if t.seen[v] {
                    lemma_seen_reachable(adj, start, t, v);
                }
            }
            assert forall|v: int| 0 <= v < n && v != start && reachable(
                adj,
                start as int,
                v,
            ) implies is_idom(adj, start as int, (#[trigger] idom@[v]) as int, v) by {
                lemma_reachable_seen(adj, start, t, v);
                lemma_final_idoms(adj, start, t, sdom@, idom@, v);
            }
        }
        idom
    }

    /// A cursor for a depth-first walk from the root that yields every
    /// vertex after the vertices first reached through it, following
    /// successors when `fwd` and predecessors otherwise.
    pub fn postorder_iter(&self, fwd: bool) -> (it: PostorderIterator)
        requires
            self.wf(),
        ensures
            it.inv(self.adj(fwd)),
            it.origin() == self.spec_root(),
            it.direction() == fwd,
            it.yielded().len() == 0,
            it.cursor() == (Cursor {
                seen: Seq::new(self@.len(), |v: int| false),
                path: Seq::empty(),
                st: seq![(self.spec_root(), 0usize)],
                depth: 0,
            }),
    {
        PostorderIterator::new(self.root(), self.size(), fwd)
    }

    /// The vertices that can be reached from the root, each once, in
    /// postorder: what the postorder cursor yields, from its first step until
    /// nothing is left.
    pub fn postorder(&self, fwd: bool) -> (r: Vec<IndexType>)
        requires
            self.wf(),
        ensures
            r@ == yields(
                self.adj(fwd),
                start_cursor(self@.len(), self.spec_root()),
                self@.len(),
            ),
            r@.len() > 0,
            r@.last() == self.spec_root(),
            forall|i: int| 0 <= i < r@.len() ==> (#[trigger] r@[i]) < self@.len(),
            forall|i: int, j: int| 0 <= i < j < r@.len() ==> r@[i] != r@[j],
            forall|v: usize|
                v < self@.len() ==> (r@.contains(v) <==> #[trigger] reachable(
                    self.adj(fwd),
                    self.spec_root() as int,
                    v as int,
                )),
            exists|par: Seq<IndexType>| #[trigger]
                is_postorder(self.adj(fwd), self.spec_root(), r@, par),
    {
        let ghost adj = self.adj(fwd);
        let mut it = self.postorder_iter(fwd);
        let mut out: Vec<IndexType> = Vec::new();
        let ghost first = start_cursor(adj.len(), self.spec_root());
        let ghost all = yields(adj, first, adj.len());
        proof {
            assert(out@ =~= it.yielded());
            assert(it.cursor() == first);
            assert(all =~= out@ + yields(adj, it.cursor(), adj.len()));
        }
        loop
            invariant_except_break
                adj == self.adj(fwd),
                it.inv(adj),
                it.direction() == fwd,
                it.origin() == self.spec_root(),
                out@ == it.yielded(),
                it.yielded().len() <= adj.len(),
                all == out@ + yields(adj, it.cursor(), (adj.len() - out@.len()) as nat),
            ensures
                adj == self.adj(fwd),
                it.inv(adj),
                it.is_done(),
                it.origin() == self.spec_root(),
                out@ == it.yielded(),
                all == out@,
            decreases adj.len() - it.yielded().len(),
        {
            let ghost before = it.cursor();
            let ghost fuel = (adj.len() - out@.len()) as nat;
            let ghost sofar = out@;
            match it.next(self) {
                Some(v) => {
                    proof {
                        lemma_yielded_bounded(it, adj);
                        assert(fuel > 0);
                        let rest = yields(adj, it.cursor(), (fuel - 1) as nat);
                        assert(yields(adj, before, fuel) == seq![v] + rest);
                        assert(sofar + (seq![v] + rest) =~= sofar.push(v) + rest);
                    }
                    out.push(v);
                },
                None => {
                    proof {
                        assert(yields(adj, before, fuel) =~= Seq::<IndexType>::empty());
                        assert(sofar + Seq::<IndexType>::empty() =~= sofar);
                    }
                    break ;
                },
            }
        }
        proof {
            lemma_postorder_complete(it, adj);
            lemma_yielded_in_range(it, adj);
            assert(is_postorder(adj, self.spec_root(), out@, it.tree_parent()));
        }
        out
    }

    /// The vertices in index order.
    pub fn vert_iter(&self) -> (r: &[Vertex<T>])
        ensures
            r@ == self@,
    {
        self.vertices.as_slice()
    }
}

/// Adding `to` to `from`'s list in `out` and `from` to `to`'s list in `inc`
/// keeps both lists closed and each the mirror of the other.
proof fn lemma_link_keeps_edges(
    a0: Seq<Seq<usize>>,
    a1: Seq<Seq<usize>>,
    b0: Seq<Seq<usize>>,
    b1: Seq<Seq<usize>>,
    from: usize,
    to: usize,
)
    requires
        closed_adj(a0),
        closed_adj(b0),
        mirrored(a0, b0),
        a1.len() == a0.len(),
        b1.len() == a0.len(),
        0 <= from < a0.len(),
        0 <= to < a0.len(),
        forall|v: int|
            0 <= v < a0.len() ==> #[trigger] a1[v] == (if v == from {
                a0[v].push(to)
            } else {
                a0[v]
            }),
        forall|v: int|
            0 <= v < a0.len() ==> #[trigger] b1[v] == (if v == to {
                b0[v].push(from)
            } else {
                b0[v]
            }),
    ensures
        closed_adj(a1),
        closed_adj(b1),
        mirrored(a1, b1),
{
    assert forall|v: int, i: int| 0 <= v < a1.len() && 0 <= i < a1[v].len() implies (
    #[trigger] a1[v][i]) < a1.len() by {
        if i < a0[v].len() {
            assert(a1[v][i] == a0[v][i]);
        }
    }
    assert forall|v: int, i: int| 0 <= v < b1.len() && 0 <= i < b1[v].len() implies (
    #[trigger] b1[v][i]) < b1.len() by {
        if i < b0[v].len() {
            assert(b1[v][i] == b0[v][i]);
        }
    }
    assert forall|a: int, b: int| #[trigger] has_edge(a1, a, b) <==> has_edge(b1, b, a) by {
        lemma_pushed_edge(a0, a1, from as int, to, a, b);
        lemma_pushed_edge(b0, b1, to as int, from, b, a);
        assert(has_edge(a0, a, b) <==> has_edge(b0, b, a));
    }
}

/// After `y` has been appended to the list of `x`, the edges are the old ones
/// and `x -> y`.
proof fn lemma_pushed_edge(
    a0: Seq<Seq<usize>>,
    a1: Seq<Seq<usize>>,
    x: int,
    y: usize,
    a: int,
    b: int,
)
    requires
        a1.len() == a0.len(),
        0 <= x < a0.len(),
        forall|v: int|
            0 <= v < a0.len() ==> #[trigger] a1[v] == (if v == x {
                a0[v].push(y)
            } else {
                a0[v]
            }),
    ensures
        has_edge(a1, a, b) <==> (has_edge(a0, a, b) || (a == x && b == y)),
{
    if has_edge(a1, a, b) {
        let i = choose|i: int| 0 <= i < a1[a].len() && #[trigger] a1[a][i] == b;
        if a == x && i == a0[a].len() {
        } else {
            assert(a0[a][i] == b);
        }
    }
    if has_edge(a0, a, b) {
        let i = choose|i: int| 0 <= i < a0[a].len() && #[trigger] a0[a][i] == b;
        assert(a1[a][i] == b);
    }
    if a == x && b == y {
        assert(a1[a][a0[a].len() as int] == b);
    }
}

/// Whether `n` lies on the way from `m` up the tree `dom_tree`: the walk goes
/// from `m` parent by parent and ends at `n` or at the top.
pub fn dominates(dom_tree: &[IndexType], n: IndexType, m: IndexType) -> (r: bool)
    requires
        is_forest(dom_tree@),
        m < dom_tree@.len(),
    ensures
        r == ancestor(dom_tree@, n as int, m as int),
{
    let ghost t = dom_tree@;
    let mut it: usize = m;
    let ghost mut j: nat = 0;
    let ghost mut k: nat = choose|k: nat| is_top(t, #[trigger] walk(t, m as int, k));
    proof {
        assert(reaches_top(t, m as int));
        assert(walk(t, m as int, 0) == m);
    }
    while dom_tree[it] != it && it != n
        invariant
            t == dom_tree@,
            is_forest(t),
            it < t.len(),
            m < t.len(),
            walk(t, m as int, j) == it,
            is_top(t, walk(t, it as int, k)),
            forall|i: nat| i < j ==> #[trigger] walk(t, m as int, i) != n,
        decreases k,
    {
        proof {
            crate::util::forest::lemma_walk_add(t, m as int, j, 1);
            lemma_walk_step(t, it as int, 0);
            assert(walk(t, t[it as int] as int, 0) == t[it as int]);
            lemma_walk_step(t, it as int, (k - 1) as nat);
            j = j + 1;
            k = (k - 1) as nat;
        }
        it = dom_tree[it];
    }
    proof {
        if it != n {
            assert forall|i: nat| #[trigger] walk(t, m as int, i) != n by {
                if i >= j {
                    crate::util::forest::lemma_walk_add(t, m as int, j, (i - j) as nat);
                    lemma_top_fixed(t, it as int, (i - j) as nat);
                }
            }
        }
    }
    it == n
}

/// Dominance read off a dominator tree is transitive.
pub proof fn lemma_dominates_transitive(dom_tree: Seq<IndexType>, n: int, m: int, p: int)
    requires
        ancestor(dom_tree, n, m),
        ancestor(dom_tree, m, p),
    ensures
        ancestor(dom_tree, n, p),
{
    crate::util::forest::lemma_ancestor_transitive(dom_tree, n, m, p);
}

/// The vectors of a vector, each by its view.
pub open spec fn lists(b: Seq<Vec<IndexType>>) -> Seq<Seq<IndexType>> {
    Seq::new(b.len(), |p: int| b[p]@)
}

/// The vector that holds every index below `n` at its own place.
fn identity(n: usize) -> (v: Vec<IndexType>)
    ensures
        v@ == Seq::new(n as nat, |i: int| i as usize),
{
    let mut v: Vec<IndexType> = Vec::new();
    let mut i: usize = 0;
    while i < n
        invariant
            i <= n,
            v@.len() == i,
            forall|j: int| 0 <= j < i ==> v@[j] == j,
        decreases n - i,
    {
        v.push(i);
        i += 1;
    }
    assert(v@ =~= Seq::new(n as nat, |i: int| i as usize));
    v
}

/// A vector of `n` empty vectors.
fn empty_lists(n: usize) -> (v: Vec<Vec<IndexType>>)
    ensures
        v@.len() == n,
        forall|i: int| 0 <= i < n ==> (#[trigger] v@[i])@.len() == 0,
{
    let mut v: Vec<Vec<IndexType>> = Vec::new();
    let mut i: usize = 0;
    while i < n
        invariant
            i <= n,
            v@.len() == i,
            forall|j: int| 0 <= j < i ==> (#[trigger] v@[j])@.len() == 0,
        decreases n - i,
    {
        v.push(Vec::new());
        i += 1;
    }
    v
}

/// A vector of `n` copies of `val`.
fn filled<T: Copy>(val: T, n: usize) -> (v: Vec<T>)
    ensures
        v@ == Seq::new(n as nat, |i: int| val),
{
    let mut v: Vec<T> = Vec::new();
    let mut i: usize = 0;
    while i < n
        invariant
            i <= n,
            v@.len() == i,
            forall|j: int| 0 <= j < i ==> v@[j] == val,
        decreases n - i,
    {
        v.push(val);
        i += 1;
    }
    assert(v@ =~= Seq::new(n as nat, |i: int| val));
    v
}

/// A single-use cursor of a depth-first walk that yields each vertex when it
/// is first reached, together with the vertex it was reached from.
pub struct PreorderIterator {
    vis: Vec<bool>,
    stack: Vec<(IndexType, IndexType)>,
    fwd: bool,
    start: Ghost<IndexType>,
    state: Ghost<DfsState>,
}

impl PreorderIterator {
    /// What the walk has recorded so far.
    pub closed spec fn tree(&self) -> DfsTree {
        self.state@.tree
    }

    /// Whether the walk follows successors.
    pub closed spec fn direction(&self) -> bool {
        self.fwd
    }

    /// The vertex the walk starts from.
    pub closed spec fn origin(&self) -> IndexType {
        self.start@
    }

    /// The candidates for the next step, the next to be tried last: pairs of
    /// a vertex and the vertex that it would be reached from.
    pub closed spec fn pending(&self) -> Seq<(IndexType, IndexType)> {
        self.stack@
    }

    /// The cursor is in step with the graph whose neighbour lists are `adj`.
    pub closed spec fn inv(&self, adj: Seq<Seq<IndexType>>) -> bool {
        &&& self.vis@ == self.state@.tree.seen
        &&& dfs_inv(adj, self.start@, self.stack@, self.state@, -1, 0)
    }

    /// A cursor at the beginning of a walk from `start` over `size` vertices.
    pub fn new(start: IndexType, size: usize, fwd: bool) -> (it: Self)
        requires
            start < size,
        ensures
            it.origin() == start,
            it.direction() == fwd,
            it.tree() == initial_state(size as nat).tree,
            it.pending() == seq![(start, start)],
            forall|adj: Seq<Seq<IndexType>>|
                closed_adj(adj) && adj.len() == size ==> #[trigger] it.inv(adj),
    {
        let vis = filled(false, size);
        let mut stack: Vec<(IndexType, IndexType)> = Vec::new();
        stack.push((start, start));
        let it = PreorderIterator {
            vis,
            stack,
            fwd,
            start: Ghost(start),
            state: Ghost(initial_state(size as nat)),
        };
        proof {
            assert(it.stack@ =~= seq![(start, start)]);
            assert(it.vis@ =~= it.state@.tree.seen);
            assert forall|adj: Seq<Seq<IndexType>>|
                closed_adj(adj) && adj.len() == size implies #[trigger] it.inv(adj) by {
                lemma_initial(adj, start);
            }
        }
        it
    }

    /// The next vertex in preorder with the vertex it was reached from (the
    /// start comes first, reached from itself), or `None` once everything
    /// that can be reached has been yielded. The vertex is the target of the
    /// topmost candidate that has not been yielded; the candidates above it
    /// are dropped, and its own are put in their place.
    pub fn next<T>(&mut self, graph: &Graph<T>) -> (r: Option<(IndexType, IndexType)>)
        requires
            old(self).inv(graph.adj(old(self).direction())),
        ensures
            final(self).inv(graph.adj(old(self).direction())),
            final(self).direction() == old(self).direction(),
            final(self).origin() == old(self).origin(),
            ({
                let st = old(self).pending();
                let k = top_unseen(st, old(self).tree().seen);
                if k < 0 {
                    r.is_none() && final(self).pending() == Seq::<(IndexType, IndexType)>::empty()
                } else {
                    r == Some(st[k]) && final(self).pending() == st.take(k) + unseen_from(
                        graph.adj(old(self).direction())[st[k].0 as int],
                        final(self).tree().seen,
                        st[k].0,
                    )
                }
            }),
            match r {
                Some((cv, pv)) => {
                    &&& cv < graph@.len()
                    &&& pv < graph@.len()
                    &&& !old(self).tree().seen[cv as int]
                    &&& final(self).tree().seen == old(self).tree().seen.update(cv as int, true)
                    &&& final(self).tree().order == old(self).tree().order.push(cv)
                    &&& final(self).tree().num == old(self).tree().num.update(
                        cv as int,
                        old(self).tree().order.len(),
                    )
                    &&& final(self).tree().par == old(self).tree().par.update(cv as int, pv)
                    &&& if old(self).tree().order.len() == 0 {
                        cv == old(self).origin() && pv == cv
                    } else {
                        old(self).tree().seen[pv as int] && has_edge(
                            graph.adj(old(self).direction()),
                            pv as int,
                            cv as int,
                        )
                    }
                },
                None => {
                    &&& final(self).tree().seen == old(self).tree().seen
                    &&& final(self).tree().order == old(self).tree().order
                    &&& final(self).tree().num == old(self).tree().num
                    &&& final(self).tree().par == old(self).tree().par
                    &&& dfs_tree(
                        graph.adj(old(self).direction()),
                        old(self).origin(),
                        final(self).tree(),
                    )
                },
            },
    {
        let ghost adj = graph.adj(self.fwd);
        let ghost s = self.start@;
        let ghost first = self.stack@;
        let ghost seen0 = self.state@.tree.seen;
        proof {
            assert(first.take(first.len() as int) =~= first);
        }
        loop
            invariant
                adj == graph.adj(self.fwd),
                adj.len() == graph.vertices@.len(),
                self.inv(adj),
                self.fwd == old(self).fwd,
                self.start@ == s,
                s == old(self).start@,
                self.state@ == old(self).state@,
                first == old(self).stack@,
                seen0 == old(self).state@.tree.seen,
                self.stack@.len() <= first.len(),
                self.stack@ == first.take(self.stack@.len() as int),
                top_unseen(self.stack@, seen0) == top_unseen(first, seen0),
            decreases self.stack.len(),
        {
            let ghost st0 = self.stack@;
            let top = self.stack.pop();
            match top {
                None => {
                    proof {
                        assert(self.stack@ =~= Seq::<(usize, usize)>::empty());
                        lemma_finish(adj, s, self.state@);
                    }
                    self.state = Ghost(close_above(self.state@, -1));
                    return None;
                },
                Some((cv, pv)) => {
                    assert(st0.last() == (cv, pv));
                    assert(st0.drop_last() =~= self.stack@);
                    assert(st0[st0.len() - 1] == st0.last());
                    if !self.vis[cv] {
                        let h = self.stack.len();
                        proof {
                            lemma_enter(adj, s, st0, self.state@);
                        }
                        self.state = Ghost(enter(self.state@, h as nat, cv, pv));
                        self.vis[cv] = true;
                        let es = graph.vertices[cv].edge_iter(self.fwd);
                        let mut i: usize = 0;
                        let ghost base = self.stack@;
                        let ghost seen1 = self.vis@;
                        proof {
                            assert(top_unseen(first, seen0) == h);
                            assert(first[h as int] == (cv, pv));
                            assert(es@.take(0) =~= Seq::<usize>::empty());
                            assert(base + unseen_from(es@.take(0), seen1, cv) =~= base);
                        }
                        while i < es.len()
                            invariant
                                i <= es.len(),
                                es@ == adj[cv as int],
                                cv < adj.len(),
                                self.vis@ == seen1,
                                self.stack@ == base + unseen_from(es@.take(i as int), seen1, cv),
                                self.vis@ == self.state@.tree.seen,
                                dfs_inv(adj, s, self.stack@, self.state@, cv as int, i as int),
                                self.state@ == enter(old(self).state@, h as nat, cv, pv),
                                shape_ok(adj.len(), old(self).state@),
                                h <= self.stack.len(),
                                self.fwd == old(self).fwd,
                                self.start@ == s,
                            decreases es.len() - i,
                        {
                            let nv = es[i];
                            proof {
                                lemma_push(adj, s, self.stack@, self.state@, cv, i as int);
                                assert(es@.take(i + 1).drop_last() =~= es@.take(i as int));
                                assert(es@.take(i + 1).last() == nv);
                            }
                            if !self.vis[nv] {
                                self.stack.push((nv, cv));
                            }
                            proof {
                                let grown = unseen_from(es@.take(i + 1), seen1, cv);
                                assert(self.stack@ =~= base + grown);
                            }
                            i += 1;
                        }
                        proof {
                            assert(pending_ok(adj, self.state@, self.stack@, -1, 0));
                            assert(es@.take(es@.len() as int) =~= es@);
                            assert(base =~= first.take(h as int));
                        }
                        return Some((cv, pv));
                    }
                    proof {
                        lemma_pop_stale(adj, s, st0, self.state@);
                        assert(self.stack@ =~= first.take(self.stack@.len() as int));
                    }
                },
            }
        }
    }
}

/// A single-use cursor of a depth-first walk that yields each vertex once
/// everything first reached through it has been yielded.
pub struct PostorderIterator {
    vis: Vec<bool>,
    stack: Vec<(IndexType, usize)>,
    path: Vec<IndexType>,
    fwd: bool,
    depth: usize,
    start: Ghost<IndexType>,
    out: Ghost<Seq<IndexType>>,
    par: Ghost<Seq<IndexType>>,
}

impl PostorderIterator {
    /// The vertices yielded so far, in order.
    pub closed spec fn yielded(&self) -> Seq<IndexType> {
        self.out@
    }

    /// By vertex: the vertex through which the walk first reached it. The
    /// start and what has not been reached hold themselves.
    pub closed spec fn tree_parent(&self) -> Seq<IndexType> {
        self.par@
    }

    /// Whether the walk follows successors.
    pub closed spec fn direction(&self) -> bool {
        self.fwd
    }

    /// The vertex the walk starts from.
    pub closed spec fn origin(&self) -> IndexType {
        self.start@
    }

    /// Nothing is left to explore or to yield.
    pub closed spec fn is_done(&self) -> bool {
        self.stack@.len() == 0 && self.path@.len() == 0
    }

    /// The state of the walk.
    pub closed spec fn cursor(&self) -> Cursor {
        Cursor { seen: self.vis@, path: self.path@, st: self.stack@, depth: self.depth as nat }
    }

    /// The cursor is in step with the graph whose neighbour lists are `adj`.
    pub closed spec fn inv(&self, adj: Seq<Seq<IndexType>>) -> bool {
        post_inv(
            adj,
            self.start@,
            self.vis@,
            self.path@,
            self.stack@,
            self.depth as nat,
            self.out@,
            self.par@,
            false,
            0,
        )
    }

    /// A cursor at the beginning of a walk from `start` over `size` vertices.
    pub fn new(start: IndexType, size: usize, fwd: bool) -> (it: Self)
        requires
            start < size,
        ensures
            it.origin() == start,
            it.direction() == fwd,
            it.yielded().len() == 0,
            it.cursor() == (Cursor {
                seen: Seq::new(size as nat, |v: int| false),
                path: Seq::empty(),
                st: seq![(start, 0usize)],
                depth: 0,
            }),
            forall|adj: Seq<Seq<IndexType>>|
                closed_adj(adj) && adj.len() == size ==> #[trigger] it.inv(adj),
    {
        let vis = filled(false, size);
        let mut stack: Vec<(IndexType, usize)> = Vec::new();
        stack.push((start, 0));
        let it = PostorderIterator {
            vis,
            stack,
            path: Vec::new(),
            fwd,
            depth: 0,
            start: Ghost(start),
            out: Ghost(Seq::empty()),
            par: Ghost(Seq::new(size as nat, |v: int| v as usize)),
        };
        proof {
            assert(it.stack@ =~= seq![(start, 0usize)]);
            assert(it.path@ =~= Seq::<usize>::empty());
            assert forall|adj: Seq<Seq<IndexType>>|
                closed_adj(adj) && adj.len() == size implies #[trigger] it.inv(adj) by {
                lemma_post_initial(adj, start);
            }
        }
        it
    }

    /// The next vertex in postorder, or `None` once everything that can be
    /// reached has been yielded. A vertex is yielded when the walk leaves
    /// it: the path from the start is given up, deepest vertex first, down to
    /// the depth at which the walk goes on.
    pub fn next<T>(&mut self, graph: &Graph<T>) -> (r: Option<IndexType>)
        requires
            old(self).inv(graph.adj(old(self).direction())),
        ensures
            final(self).inv(graph.adj(old(self).direction())),
            final(self).direction() == old(self).direction(),
            final(self).origin() == old(self).origin(),
            match r {
                Some(v) => {
                    &&& v < graph@.len()
                    &&& !old(self).yielded().contains(v)
                    &&& final(self).yielded() == old(self).yielded().push(v)
                },
                None => final(self).yielded() == old(self).yielded() && final(self).is_done(),
            },
            r == next_of(graph.adj(old(self).direction()), old(self).cursor()),
            final(self).cursor() == after_next(graph.adj(old(self).direction()), old(self).cursor()),
    {
        let ghost adj = graph.adj(self.fwd);
        let ghost s = self.start@;
        loop
            invariant
                adj == graph.adj(self.fwd),
                adj.len() == graph.vertices@.len(),
                self.inv(adj),
                settle(adj, self.cursor()) == settle(adj, old(self).cursor()),
                self.fwd == old(self).fwd,
                self.start@ == s,
                s == old(self).start@,
                self.out@ == old(self).out@,
            decreases
                    count_unseen(self.vis@),
                    self.stack@.len(),
                    (if self.path@.len() > self.depth {
                        0int
                    } else {
                        1int
                    }),
        {
            if self.path.len() > self.depth {
                proof {
                    lemma_post_yield(
                        adj,
                        s,
                        self.vis@,
                        self.path@,
                        self.stack@,
                        self.depth as nat,
                        self.out@,
                        self.par@,
                    );
                }
                let ghost before = self.cursor();
                let v = self.path.pop().unwrap();
                self.out = Ghost(self.out@.push(v));
                proof {
                    assert(settle(adj, before) == before);
                    assert(self.cursor() == after_next(adj, old(self).cursor()));
                }
                return Some(v);
            }
            let ghost before = self.cursor();
            let ghost st0 = self.stack@;
            match self.stack.pop() {
                None => {
                    assert(self.stack@ =~= Seq::<(usize, usize)>::empty());
                    assert(self.cursor() == before);
                    if self.path.len() == 0 {
                        assert(self.path@ =~= Seq::<usize>::empty());
                        assert(settle(adj, before) == before);
                        return None;
                    }
                    proof {
                        lemma_post_unwind(
                            adj,
                            s,
                            self.vis@,
                            self.path@,
                            self.depth as nat,
                            self.out@,
                            self.par@,
                        );
                    }
                    self.depth = 0;
                    proof {
                        assert(settle(adj, before) == self.cursor());
                        assert(settle(adj, self.cursor()) == self.cursor());
                    }
                },
                Some((cv, d)) => {
                    proof {
                        assert(st0.last() == (cv, d));
                        assert(st0.drop_last() =~= self.stack@);
                        assert(st0[st0.len() - 1] == st0.last());
                        if self.vis@[s as int] {
                            assert(slot_ok(adj, self.path@, self.depth as nat, st0, st0.len() - 1));
                        } else {
                            assert(st0[0] == (s, 0usize));
                        }
                    }
                    if self.vis[cv] {
                        proof {
                            lemma_post_stale(
                                adj,
                                s,
                                self.vis@,
                                self.path@,
                                st0,
                                self.depth as nat,
                                self.out@,
                                self.par@,
                            );
                            let dropped = Cursor {
                                seen: before.seen,
                                path: before.path,
                                st: before.st.drop_last(),
                                depth: before.depth,
                            };
                            assert(settle(adj, before) == settle(adj, dropped));
                            assert(self.cursor() == dropped);
                        }
                    } else if self.path.len() > d {
                        proof {
                            lemma_post_defer(
                                adj,
                                s,
                                self.vis@,
                                self.path@,
                                st0,
                                self.depth as nat,
                                self.out@,
                                self.par@,
                            );
                        }
                        self.stack.push((cv, d));
                        assert(self.stack@ =~= st0);
                        self.depth = d;
                        proof {
                            assert(settle(adj, before) == self.cursor());
                            assert(settle(adj, self.cursor()) == self.cursor());
                        }
                    } else {
                        let ghost q = if self.path@.len() == 0 {
                            cv
                        } else {
                            self.path@.last()
                        };
                        proof {
                            lemma_post_enter(
                                adj,
                                s,
                                self.vis@,
                                self.path@,
                                st0,
                                self.depth as nat,
                                self.out@,
                                self.par@,
                            );
                            lemma_count_unseen(self.vis@, cv as int);
                            lemma_path_bounded(
                                adj.len(),
                                s,
                                self.vis@.update(cv as int, true),
                                self.path@.push(cv),
                                self.par@.update(cv as int, q),
                            );
                        }
                        self.par = Ghost(self.par@.update(cv as int, q));
                        self.vis[cv] = true;
                        self.path.push(cv);
                        self.depth = d + 1;
                        let es = graph.vertices[cv].edge_iter(self.fwd);
                        let mut i: usize = 0;
                        let ghost vis1 = self.vis@;
                        let ghost path1 = self.path@;
                        let ghost par1 = self.par@;
                        let ghost base = self.stack@;
                        proof {
                            assert(es@.take(0) =~= Seq::<usize>::empty());
                            assert(base + unseen_from(es@.take(0), vis1, self.depth) =~= base);
                        }
                        while i < es.len()
                            invariant
                                i <= es.len(),
                                cv < adj.len(),
                                es@ == adj[cv as int],
                                self.vis@ == vis1,
                                self.path@ == path1,
                                self.par@ == par1,
                                self.stack@ == base + unseen_from(
                                    es@.take(i as int),
                                    vis1,
                                    self.depth,
                                ),
                                self.out@ == old(self).out@,
                                path1.len() > 0,
                                path1.last() == cv,
                                self.depth == path1.len(),
                                post_inv(
                                    adj,
                                    s,
                                    vis1,
                                    path1,
                                    self.stack@,
                                    path1.len(),
                                    self.out@,
                                    par1,
                                    true,
                                    i as int,
                                ),
                                self.fwd == old(self).fwd,
                                self.start@ == s,
                            decreases es.len() - i,
                        {
                            let nv = es[i];
                            proof {
                                lemma_post_push(
                                    adj,
                                    s,
                                    vis1,
                                    path1,
                                    self.stack@,
                                    self.out@,
                                    par1,
                                    i as int,
                                );
                            }
                            proof {
                                assert(es@.take(i + 1).drop_last() =~= es@.take(i as int));
                                assert(es@.take(i + 1).last() == nv);
                            }
                            if !self.vis[nv] {
                                self.stack.push((nv, self.depth));
                            }
                            proof {
                                let grown = unseen_from(es@.take(i + 1), vis1, self.depth);
                                assert(self.stack@ =~= base + grown);
                            }
                            i += 1;
                        }
                        proof {
                            assert(es@.take(es@.len() as int) =~= es@);
                            assert(base =~= before.st.drop_last());
                            let entered = Cursor {
                                seen: before.seen.update(cv as int, true),
                                path: before.path.push(cv),
                                st: before.st.drop_last() + unseen_from(
                                    adj[cv as int],
                                    before.seen.update(cv as int, true),
                                    (before.path.len() + 1) as usize,
                                ),
                                depth: before.path.len() + 1,
                            };
                            assert(settle(adj, before) == settle(adj, entered));
                            assert(self.cursor() == entered);
                            assert(crate::util::postorder::pending_ok(
                                adj,
                                vis1,
                                path1,
                                self.stack@,
                                false,
                                0,
                            ));
                        }
                    }
                },
            }
        }
    }
}

/// Once a postorder walk has run dry, what it has yielded is a postorder of
/// a depth-first walk from its start, with the start last; if the whole graph
/// can be reached, it has yielded as many vertices as the graph has.
pub proof fn lemma_postorder_complete(it: PostorderIterator, adj: Seq<Seq<IndexType>>)
    requires
        it.inv(adj),
        it.is_done(),
    ensures
        is_postorder(adj, it.origin(), it.yielded(), it.tree_parent()),
        it.yielded().len() > 0,
        it.yielded().last() == it.origin(),
        (forall|v: usize| v < adj.len() ==> #[trigger] reachable(adj, it.origin() as int, v as int))
            ==> it.yielded().len() == adj.len(),
{
    let out = it.out@;
    let par = it.par@;
    let s = it.start@;
    assert(it.path@ =~= Seq::<usize>::empty());
    assert(it.stack@ =~= Seq::<(usize, usize)>::empty());
    assert forall|i: int| 0 <= i < out.len() implies ancestor(par, s as int, (#[trigger] out[i]) as int) by {
        lemma_post_root_above(adj, s, it.vis@, it.depth as nat, out, par, i);
    }
    assert forall|v: usize| v < adj.len() implies (out.contains(v) <==> #[trigger] reachable(
        adj,
        s as int,
        v as int,
    )) by {
        lemma_post_done(adj, s, it.vis@, it.depth as nat, out, par, v as int);
    }
    assert forall|i: int, a: int|
        0 <= i < out.len() && #[trigger] ancestor(par, a, out[i] as int) && a != out[i] implies exists|
        j: int,
    |
        i < j < out.len() && out[j] == a by {
        let k = choose|k: nat| #[trigger] walk(par, out[i] as int, k) == a;
        let j = lemma_post_descendants_first(adj, s, it.vis@, it.depth as nat, out, par, i, k);
        assert(out[j] == a);
    }
    if forall|v: usize| v < adj.len() ==> #[trigger] reachable(adj, it.origin() as int, v as int) {
        assert forall|v: usize| v < adj.len() implies #[trigger] out.contains(v) by {
            assert(reachable(adj, it.origin() as int, v as int));
        }
        lemma_full_count(out, adj.len());
        assert(it.yielded().len() == adj.len());
    }
    crate::util::paths::lemma_path_single(adj, s as int);
    assert(out.contains(s));
    crate::util::postorder::lemma_postorder_root_last(adj, s, out, par);
}

/// A postorder walk yields no more vertices than the graph has.
pub proof fn lemma_yielded_bounded(it: PostorderIterator, adj: Seq<Seq<IndexType>>)
    requires
        it.inv(adj),
    ensures
        it.yielded().len() <= adj.len(),
{
    crate::util::dfs::lemma_distinct_bounded(it.out@, adj.len());
}

/// A postorder walk yields vertices of the graph.
pub proof fn lemma_yielded_in_range(it: PostorderIterator, adj: Seq<Seq<IndexType>>)
    requires
        it.inv(adj),
    ensures
        forall|i: int| 0 <= i < it.yielded().len() ==> (#[trigger] it.yielded()[i]) < adj.len(),
{
}

} // verus!
