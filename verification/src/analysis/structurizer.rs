//! Region-based recovery of structured control flow.
//!
//! The flow graph of a routine is copied into a region graph with one leaf
//! for each basic block. Structuring then finds, again and again, a group
//! of regions that make up one control construct and replaces the group by a
//! single new region that names its parts, until one region is left.

use crate::analysis::regions::{
    distinct_live, lemma_distinct_live, lemma_has_edge_contains, lemma_live_count_bounds,
    lemma_live_count_clear, lemma_live_count_gap, lemma_live_count_mono, lemma_live_count_push,
    lemma_reachable_from_parent, lemma_reachable_grows, lemma_rewire_in, lemma_rewire_next,
    lemma_rewire_out, lemma_rewire_start, lemma_unique_live, live_count, rewired, hits, sources,
    handed_on, lemma_handed_in, lemma_handed_member, lemma_handed_next, lemma_handed_out,
    lemma_handed_start,
};
use crate::ir::pdir::{BasicBlock, PDRoutine};
use crate::util::forest::{ancestor, is_forest};
use crate::util::graph::{dominates, Graph, IndexType, Vertex};
use crate::util::paths::{
    closed_adj, connects, edge_at, has_edge, is_path, lemma_path_single, mirrored, reachable,
};
use crate::util::postorder::{is_postorder, start_cursor, yields};
use crate::util::semidom::{is_dom_tree, is_idom};
use vstd::prelude::*;

verus! {

/// Something that can rewrite itself into structured form.
pub trait Structurizer: Sized {
    /// The value is one that `structurize` can work on.
    spec fn wf(&self) -> bool;

    /// Nothing is left to do.
    spec fn is_structured(&self) -> bool;

    /// There is nothing that could be structured.
    spec fn is_void(&self) -> bool;

    /// Brings the value into structured form, unless there is nothing to
    /// structure. A value in that form is left as it is.
    fn structurize(&mut self)
        requires
            old(self).wf(),
        ensures
            final(self).wf(),
            old(self).is_structured() ==> *final(self) == *old(self),
            !old(self).is_void() ==> final(self).is_structured(),
    ;
}

/// A region of structured control flow. The parts of a region are named by
/// their index in the region graph.
#[derive(Debug, Clone, PartialEq, Eq)]
pub enum ControlNode {
    /// One basic block, by its index in the flow graph.
    Leaf(IndexType),
    /// The parts one after the other.
    Sequence(Vec<IndexType>),
    /// Head, then the part taken if the test of the head holds.
    If(IndexType, IndexType),
    /// Head, the part taken if its test holds, the part taken if not.
    IfElse(IndexType, IndexType, IndexType),
    /// Tests that combine into one condition: the head of the branch or loop
    /// that they decide.
    CompoundCond(Vec<IndexType>),
    /// Head and the cases its test selects from.
    Switch(IndexType, Vec<IndexType>),
    /// A body that repeats without end.
    SelfLoop(IndexType),
    /// Test, then the body that repeats while it holds.
    While(IndexType, IndexType),
    /// Body, then the test that repeats it.
    DoWhile(IndexType, IndexType),
    /// Initialisation, test, and the body with the step.
    For(IndexType, IndexType, IndexType),
    /// Control leaves by a jump.
    Goto,
    /// The target of jumps, placed out of line.
    Tail,
}

impl ControlNode {
    /// The regions this region is made of.
    pub open spec fn children(&self) -> Seq<IndexType> {
        match self {
            ControlNode::Leaf(_) => seq![],
            ControlNode::Sequence(parts) => parts@,
            ControlNode::If(h, t) => seq![*h, *t],
            ControlNode::IfElse(h, t, f) => seq![*h, *t, *f],
            ControlNode::CompoundCond(parts) => parts@,
            ControlNode::Switch(h, cases) => seq![*h] + cases@,
            ControlNode::SelfLoop(b) => seq![*b],
            ControlNode::While(c, b) => seq![*c, *b],
            ControlNode::DoWhile(b, c) => seq![*b, *c],
            ControlNode::For(i, c, b) => seq![*i, *c, *b],
            ControlNode::Goto => seq![],
            ControlNode::Tail => seq![],
        }
    }

    /// The two are the same construct over the same parts.
    pub open spec fn alike(&self, other: &ControlNode) -> bool {
        match (self, other) {
            (ControlNode::Leaf(a), ControlNode::Leaf(b)) => a == b,
            (ControlNode::Sequence(a), ControlNode::Sequence(b)) => a@ == b@,
            (ControlNode::If(a, b), ControlNode::If(c, d)) => a == c && b == d,
            (ControlNode::IfElse(a, b, c), ControlNode::IfElse(d, e, f)) => a == d && b == e && c
                == f,
            (ControlNode::CompoundCond(a), ControlNode::CompoundCond(b)) => a@ == b@,
            (ControlNode::Switch(a, b), ControlNode::Switch(c, d)) => a == c && b@ == d@,
            (ControlNode::SelfLoop(a), ControlNode::SelfLoop(b)) => a == b,
            (ControlNode::While(a, b), ControlNode::While(c, d)) => a == c && b == d,
            (ControlNode::DoWhile(a, b), ControlNode::DoWhile(c, d)) => a == c && b == d,
            (ControlNode::For(a, b, c), ControlNode::For(d, e, f)) => a == d && b == e && c == f,
            (ControlNode::Goto, ControlNode::Goto) => true,
            (ControlNode::Tail, ControlNode::Tail) => true,
            _ => false,
        }
    }

    /// A copy of the node.
    pub fn duplicate(&self) -> (r: ControlNode)
        ensures
            r.alike(self),
            r.children() == self.children(),
    {
        match self {
            ControlNode::Leaf(a) => ControlNode::Leaf(*a),
            ControlNode::Sequence(parts) => ControlNode::Sequence(copy_indices(parts)),
            ControlNode::If(h, t) => ControlNode::If(*h, *t),
            ControlNode::IfElse(h, t, f) => ControlNode::IfElse(*h, *t, *f),
            ControlNode::CompoundCond(parts) => ControlNode::CompoundCond(copy_indices(parts)),
            ControlNode::Switch(h, cases) => ControlNode::Switch(*h, copy_indices(cases)),
            ControlNode::SelfLoop(b) => ControlNode::SelfLoop(*b),
            ControlNode::While(c, b) => ControlNode::While(*c, *b),
            ControlNode::DoWhile(b, c) => ControlNode::DoWhile(*b, *c),
            ControlNode::For(i, c, b) => ControlNode::For(*i, *c, *b),
            ControlNode::Goto => ControlNode::Goto,
            ControlNode::Tail => ControlNode::Tail,
        }
    }
}

/// A copy of a list of indices.
pub fn copy_indices(v: &Vec<IndexType>) -> (r: Vec<IndexType>)
    ensures
        r@ == v@,
{
    let mut r: Vec<IndexType> = Vec::new();
    let mut i: usize = 0;
    while i < v.len()
        invariant
            i <= v.len(),
            r@ == v@.take(i as int),
        decreases v.len() - i,
    {
        r.push(v[i]);
        assert(v@.take(i + 1) =~= v@.take(i as int).push(v@[i as int]));
        i += 1;
    }
    assert(v@.take(v.len() as int) =~= v@);
    r
}

/// The region graph a flow graph starts from: the same vertices and the same
/// edges, each basic block replaced by a leaf that names it. Every vertex has
/// the successors it has in the flow graph, in the same order; its
/// predecessors are the sources of the edges that lead to it, in ascending
/// order, one entry for each edge.
pub fn init_analysis_graph(graph: &Graph<BasicBlock>) -> (copy: Graph<ControlNode>)
    requires
        graph.forward_ok(),
    ensures
        copy.wf(),
        copy@.len() == graph@.len(),
        copy.adj(true) == graph.adj(true),
        forall|w: int|
            0 <= w < copy@.len() ==> (#[trigger] copy@[w]).in_edges() == sources(
                graph.adj(true),
                w,
                graph@.len() as int,
            ),
        forall|v: int|
            2 <= v < copy@.len() ==> (#[trigger] copy@[v]).payload() == Some(
                ControlNode::Leaf(v as usize),
            ),
{
    let ghost gadj = graph.adj(true);
    let mut copy_graph: Graph<ControlNode> = Graph::default();
    let n = graph.size();
    let mut idx: usize = 0;
    while idx < n
        invariant
            graph.forward_ok(),
            n == graph@.len(),
            idx <= n,
            copy_graph.wf(),
            copy_graph@.len() == (if idx < 2 {
                2
            } else {
                idx as int
            }),
            forall|v: int|
                0 <= v < copy_graph@.len() ==> (#[trigger] copy_graph@[v]).out_edges().len() == 0,
            forall|v: int|
                0 <= v < copy_graph@.len() ==> (#[trigger] copy_graph@[v]).in_edges().len() == 0,
            forall|v: int|
                2 <= v < copy_graph@.len() ==> (#[trigger] copy_graph@[v]).payload() == Some(
                    ControlNode::Leaf(v as usize),
                ),
        decreases n - idx,
    {
        let v = &graph.vert_iter()[idx];
        if !v.is_pseudo() {
            copy_graph.add_vert(ControlNode::Leaf(idx));
        }
        idx += 1;
    }
    let mut from: usize = 0;
    proof {
        assert forall|w: int| 0 <= w < n implies (#[trigger] copy_graph@[w]).in_edges() == sources(
            gadj,
            w,
            0,
        ) by {
            assert(copy_graph@[w].in_edges() =~= Seq::<IndexType>::empty());
        }
        assert forall|v: int| 0 <= v < n implies (#[trigger] copy_graph@[v]).out_edges()
            == Seq::<IndexType>::empty() by {
            assert(copy_graph@[v].out_edges() =~= Seq::<IndexType>::empty());
        }
    }
    while from < n
        invariant
            graph.forward_ok(),
            gadj == graph.adj(true),
            n == graph@.len(),
            from <= n,
            copy_graph.wf(),
            copy_graph@.len() == n,
            forall|w: int|
                0 <= w < n ==> (#[trigger] copy_graph@[w]).in_edges() == sources(
                    gadj,
                    w,
                    from as int,
                ),
            forall|v: int|
                0 <= v < n ==> (#[trigger] copy_graph@[v]).out_edges() == (if v < from {
                    graph@[v].out_edges()
                } else {
                    Seq::<IndexType>::empty()
                }),
            forall|v: int|
                2 <= v < copy_graph@.len() ==> (#[trigger] copy_graph@[v]).payload() == Some(
                    ControlNode::Leaf(v as usize),
                ),
        decreases n - from,
    {
        let es = graph.vert_iter()[from].edge_iter(true);
        let mut j: usize = 0;
        proof {
            assert(es@.take(0) =~= Seq::<IndexType>::empty());
            assert forall|w: int| 0 <= w < n implies (#[trigger] copy_graph@[w]).in_edges()
                == sources(gadj, w, from as int) + hits(es@.take(0), w, from) by {
                assert(sources(gadj, w, from as int) + hits(es@.take(0), w, from) =~= sources(
                    gadj,
                    w,
                    from as int,
                ));
            }
        }
        while j < es.len()
            invariant
                graph.forward_ok(),
                gadj == graph.adj(true),
                n == graph@.len(),
                from < n,
                es@ == graph@[from as int].out_edges(),
                j <= es.len(),
                copy_graph.wf(),
                copy_graph@.len() == n,
                forall|w: int|
                    0 <= w < n ==> (#[trigger] copy_graph@[w]).in_edges() == sources(
                        gadj,
                        w,
                        from as int,
                    ) + hits(es@.take(j as int), w, from),
                forall|v: int|
                    0 <= v < n ==> (#[trigger] copy_graph@[v]).out_edges() == (if v < from {
                        graph@[v].out_edges()
                    } else if v == from {
                        es@.take(j as int)
                    } else {
                        Seq::<IndexType>::empty()
                    }),
                forall|v: int|
                    2 <= v < copy_graph@.len() ==> (#[trigger] copy_graph@[v]).payload() == Some(
                        ControlNode::Leaf(v as usize),
                    ),
            decreases es.len() - j,
        {
            let to = es[j];
            let ghost before = copy_graph@;
            proof {
                assert(graph.adj(true)[from as int][j as int] < n);
                assert(es@.take(j + 1) =~= es@.take(j as int).push(to));
            }
            let r = copy_graph.link(from, to);
            proof {
                assert forall|w: int| 0 <= w < n implies (#[trigger] copy_graph@[w]).in_edges()
                    == sources(gadj, w, from as int) + hits(es@.take(j + 1), w, from) by {
                    let head = sources(gadj, w, from as int);
                    let done = hits(es@.take(j as int), w, from);
                    assert(before[w].in_edges() == head + done);
                    assert(es@.take(j + 1).drop_last() =~= es@.take(j as int));
                    assert(es@.take(j + 1).last() == to);
                    if w == to {
                        assert((head + done).push(from) =~= head + done.push(from));
                    }
                }
            }
            j += 1;
        }
        proof {
            assert(es@.take(es.len() as int) =~= es@);
            assert(gadj[from as int] == es@);
        }
        from += 1;
    }
    proof {
        assert(copy_graph.adj(true) =~= graph.adj(true));
    }
    copy_graph
}

/// By region: the regions it is made of.
pub open spec fn tree_adj(g: Seq<Vertex<ControlNode>>) -> Seq<Seq<IndexType>> {
    Seq::new(
        g.len(),
        |x: int|
            match g[x].payload() {
                Some(n) => n.children(),
                None => Seq::empty(),
            },
    )
}

/// The flags in `live` with those of `members` cleared.
pub open spec fn cleared(live: Seq<bool>, members: Seq<IndexType>) -> Seq<bool> {
    Seq::new(live.len(), |x: int| live[x] && !members.contains(x as usize))
}

/// Whether `x` is in `list`.
pub fn list_has(list: &Vec<IndexType>, x: IndexType) -> (r: bool)
    ensures
        r == list@.contains(x),
{
    let mut i: usize = 0;
    while i < list.len()
        invariant
            i <= list.len(),
            forall|j: int| 0 <= j < i ==> list@[j] != x,
        decreases list.len() - i,
    {
        if list[i] == x {
            return true;
        }
        i += 1;
    }
    false
}

/// The state of structuring: the region graph, and which of its vertices are
/// regions of their own still. A vertex that has become part of a region
/// stays in the graph, so that the region can name it.
pub struct SPSState {
    rgraph: Graph<ControlNode>,
    live: Vec<bool>,
    alive: usize,
    blocks: Ghost<Seq<bool>>,
}

impl SPSState {
    /// The region graph.
    pub closed spec fn graph(&self) -> Graph<ControlNode> {
        self.rgraph
    }

    /// The vertices of the region graph.
    pub open spec fn regions(&self) -> Seq<Vertex<ControlNode>> {
        self.graph()@
    }

    /// By vertex: whether it is still a vertex of the shrinking graph. Root
    /// and terminator always are.
    pub closed spec fn live(&self) -> Seq<bool> {
        self.live@
    }

    /// How many vertices are alive, root and terminator included.
    pub closed spec fn count(&self) -> int {
        self.alive as int
    }

    /// By vertex: whether it is a basic block that structuring has to place.
    pub closed spec fn blocks(&self) -> Seq<bool> {
        self.blocks@
    }

    /// By region: the regions it is made of.
    pub open spec fn parts(&self) -> Seq<Seq<IndexType>> {
        tree_adj(self.regions())
    }

    /// The vertex `v` is a region of its own.
    pub open spec fn is_region(&self, v: int) -> bool {
        2 <= v < self.regions().len() && self.live()[v]
    }

    /// The region `r` holds `b`, as itself or inside one of its parts.
    pub open spec fn holds(&self, r: int, b: int) -> bool {
        reachable(self.parts(), r, b)
    }

    /// Some region of its own holds `b`.
    pub open spec fn covered(&self, b: int) -> bool {
        exists|r: int| self.is_region(r) && #[trigger] self.holds(r, b)
    }

    /// The live successors of `v`, each once.
    pub open spec fn succs(&self, v: int) -> Seq<IndexType> {
        distinct_live(self.regions()[v].out_edges(), self.live())
    }

    /// The live predecessors of `v`, each once.
    pub open spec fn preds(&self, v: int) -> Seq<IndexType> {
        distinct_live(self.regions()[v].in_edges(), self.live())
    }

    /// Every part of a region is a vertex before it that is no region of its
    /// own any more, and no vertex is a part of two regions, or twice a part
    /// of one.
    pub open spec fn tree_ok(&self) -> bool {
        &&& forall|x: int, i: int|
            0 <= x < self.parts().len() && 0 <= i < self.parts()[x].len() ==> 2 <= (
            #[trigger] self.parts()[x][i]) < x && !self.live()[self.parts()[x][i] as int]
        &&& forall|x: int, i: int, y: int, j: int|
            0 <= x < self.parts().len() && 0 <= i < self.parts()[x].len() && 0 <= y
                < self.parts().len() && 0 <= j < self.parts()[y].len() && (
            #[trigger] self.parts()[x][i]) == (#[trigger] self.parts()[y][j]) ==> x == y && i == j
    }

    /// The vertex `v` is neither a region of its own nor a part of one.
    pub open spec fn is_free(&self, v: int) -> bool {
        &&& 2 <= v < self.regions().len()
        &&& !self.live()[v]
        &&& forall|x: int, i: int|
            0 <= x < self.parts().len() && 0 <= i < self.parts()[x].len() ==> (
            #[trigger] self.parts()[x][i]) != v
    }

    /// The state is consistent: the graph is well formed, the count of live
    /// vertices is right, the regions form trees, and every block that has
    /// to be placed is held by a region of its own.
    pub open spec fn inv(&self) -> bool {
        &&& self.graph().wf()
        &&& self.live().len() == self.regions().len()
        &&& self.live()[0]
        &&& self.live()[1]
        &&& self.count() == live_count(self.live(), self.live().len() as int)
        &&& self.tree_ok()
        &&& self.blocks().len() <= self.regions().len()
        &&& forall|b: int| 2 <= b < self.blocks().len() && #[trigger] self.blocks()[b] ==> self.covered(b)
    }

    /// The state is the one structuring starts from for `graph`: one leaf for
    /// each basic block, with the edges of `graph`, the predecessors of each
    /// vertex in ascending order; a block is a region of its own, and has to
    /// be placed, if it can be reached from the root.
    pub open spec fn is_initial(&self, graph: Graph<BasicBlock>) -> bool {
        &&& self.inv()
        &&& self.regions().len() == graph@.len()
        &&& self.graph().adj(true) == graph.adj(true)
        &&& forall|w: int|
            0 <= w < graph@.len() ==> (#[trigger] self.regions()[w]).in_edges() == sources(
                graph.adj(true),
                w,
                graph@.len() as int,
            )
        &&& self.blocks() == self.live()
        &&& forall|v: int|
            2 <= v < graph@.len() ==> (#[trigger] self.regions()[v]).payload() == Some(
                ControlNode::Leaf(v as usize),
            )
        &&& forall|v: int|
            2 <= v < graph@.len() ==> (#[trigger] self.live()[v] <==> reachable(
                graph.adj(true),
                0,
                v,
            ))
    }

    /// The state structuring starts from.
    pub fn new(graph: &Graph<BasicBlock>) -> (s: SPSState)
        requires
            graph.forward_ok(),
        ensures
            s.is_initial(*graph),
    {
        let rgraph = init_analysis_graph(graph);
        let idom = rgraph.compute_dom_tree(true);
        let n = rgraph.size();
        let mut live: Vec<bool> = Vec::new();
        let mut alive: usize = 0;
        let mut v: usize = 0;
        let ghost adj = rgraph.adj(true);
        while v < n
            invariant
                n == rgraph@.len(),
                idom@.len() == n,
                v <= n,
                live@.len() == v,
                alive == live_count(live@, v as int),
                forall|x: int| 0 <= x < v ==> live@[x] == (x < 2 || idom@[x] != x),
            decreases n - v,
        {
            let flag = v < 2 || idom[v] != v;
            proof {
                lemma_live_count_bounds(live@, v as int);
                lemma_live_count_push(live@, flag);
            }
            live.push(flag);
            if flag {
                alive += 1;
            }
            v += 1;
        }
        let s = SPSState { rgraph, live, alive, blocks: Ghost(live@) };
        proof {
            assert forall|x: int| 2 <= x < n implies (#[trigger] s.live()[x] <==> reachable(
                adj,
                0,
                x,
            )) by {
                if reachable(adj, 0, x) {
                    assert(is_idom(adj, 0, idom@[x] as int, x));
                }
            }
            assert forall|x: int, i: int|
                0 <= x < s.parts().len() && 0 <= i < s.parts()[x].len() implies 2 <= (
            #[trigger] s.parts()[x][i]) < x && !s.live()[s.parts()[x][i] as int] by {
                if x >= 2 {
                    assert(s.regions()[x].payload() == Some(ControlNode::Leaf(x as usize)));
                }
            }
            assert forall|b: int| 2 <= b < s.blocks().len() && #[trigger] s.blocks()[b] implies s.covered(
                b,
            ) by {
                lemma_path_single(s.parts(), b);
                assert(s.is_region(b) && s.holds(b, b));
            }
        }
        s
    }

    /// The number of vertices of the region graph.
    pub fn size(&self) -> (n: usize)
        ensures
            n == self.regions().len(),
    {
        self.rgraph.size()
    }

    /// The region at `id`, if `id` names a vertex that is one.
    pub fn region(&self, id: IndexType) -> (r: Option<&ControlNode>)
        ensures
            r.is_some() == (id < self.regions().len() && self.regions()[id as int].payload().is_some()),
            r.is_some() ==> *r.unwrap() == self.regions()[id as int].payload().unwrap(),
    {
        match self.rgraph.vert(id) {
            Some(v) => v.data(),
            None => None,
        }
    }

    /// Whether the vertex `id` is a region of its own still.
    pub fn is_live(&self, id: IndexType) -> (r: bool)
        ensures
            r == (id < self.live().len() && self.live()[id as int]),
    {
        id < self.live.len() && self.live[id]
    }

    /// The live neighbours of `v` in one direction, each once, in the order
    /// of their first occurrence.
    pub fn live_targets(&self, v: IndexType, fwd: bool) -> (r: Vec<IndexType>)
        requires
            v < self.regions().len(),
        ensures
            r@ == distinct_live(self.regions()[v as int].edges(fwd), self.live()),
            forall|i: int, j: int| 0 <= i < j < r@.len() ==> r@[i] != r@[j],
            forall|y: usize| #[trigger]
                r@.contains(y) <==> (has_edge(self.graph().adj(fwd), v as int, y as int) && y
                    < self.live().len() && self.live()[y as int]),
    {
        proof {
            lemma_distinct_live(self.regions()[v as int].edges(fwd), self.live());
            assert forall|y: usize|
                self.regions()[v as int].edges(fwd).contains(y) <==> has_edge(
                    self.graph().adj(fwd),
                    v as int,
                    y as int,
                ) by {
                lemma_has_edge_contains(self.graph().adj(fwd), v as int, y);
            }
        }
        let es = self.rgraph.vert_iter()[v].edge_iter(fwd);
        let mut r: Vec<IndexType> = Vec::new();
        let mut i: usize = 0;
        while i < es.len()
            invariant
                i <= es.len(),
                r@ == distinct_live(es@.take(i as int), self.live@),
            decreases es.len() - i,
        {
            let t = es[i];
            proof {
                assert(es@.take(i + 1).drop_last() =~= es@.take(i as int));
                assert(es@.take(i + 1).last() == t);
            }
            if t < self.live.len() && self.live[t] && !list_has(&r, t) {
                r.push(t);
            }
            i += 1;
        }
        proof {
            assert(es@.take(es.len() as int) =~= es@);
        }
        r
    }

    /// The vertex `v` has an edge to itself.
    pub open spec fn self_edge(&self, v: int) -> bool {
        has_edge(self.graph().adj(true), v, v)
    }

    /// No region of its own has an edge to itself.
    pub open spec fn settled(&self) -> bool {
        forall|v: int| self.is_region(v) ==> !#[trigger] self.self_edge(v)
    }

    /// Whether `v` has an edge to itself.
    pub fn has_self_edge(&self, v: IndexType) -> (r: bool)
        requires
            v < self.regions().len(),
        ensures
            r == self.regions()[v as int].out_edges().contains(v),
            r == self.self_edge(v as int),
    {
        proof {
            lemma_has_edge_contains(self.graph().adj(true), v as int, v);
        }
        let es = self.rgraph.vert_iter()[v].edge_iter(true);
        let mut i: usize = 0;
        assert(es@ == self.regions()[v as int].out_edges());
        while i < es.len()
            invariant
                i <= es.len(),
                v < self.regions().len(),
                es@ == self.regions()[v as int].out_edges(),
                es@.contains(v) == self.self_edge(v as int),
                forall|j: int| 0 <= j < i ==> es@[j] != v,
            decreases es.len() - i,
        {
            if es[i] == v {
                assert(es@[i as int] == v);
                return true;
            }
            i += 1;
        }
        false
    }

    /// The one region that is left, once one is.
    pub fn root_region(&self) -> (r: Option<IndexType>)
        requires
            self.inv(),
        ensures
            r.is_some() == (self.count() == 3),
            r.is_some() ==> self.is_region(r.unwrap() as int),
            r.is_some() ==> forall|x: int| self.is_region(x) ==> x == r.unwrap(),
    {
        if self.alive != 3 {
            return None;
        }
        let n = self.live.len();
        let mut v: usize = 2;
        while v < n
            invariant
                self.inv(),
                self.alive == 3,
                n == self.live@.len(),
                2 <= v <= n,
                forall|x: int| 2 <= x < v ==> !self.live@[x],
            decreases n - v,
        {
            if self.live[v] {
                proof {
                    assert forall|x: int| self.is_region(x) implies x == v by {
                        lemma_unique_live(self.live@, v as int, x);
                    }
                }
                return Some(v);
            }
            v += 1;
        }
        proof {
            lemma_live_count_gap(self.live@, 2, n as int);
            lemma_live_count_bounds(self.live@, 2);
            assert(false);
        }
        None
    }

    /// Replaces the regions `members` by one new region `node` made of them:
    /// the members stop being regions of their own, and the new region gets
    /// their edges from and to the regions that remain.
    fn collapse(&mut self, members: &Vec<IndexType>, node: ControlNode) -> (c: IndexType)
        requires
            old(self).inv(),
            members@.len() >= 1,
            forall|i: int| 0 <= i < members@.len() ==> old(self).is_region(#[trigger] members@[i] as int),
            forall|i: int, j: int| 0 <= i < j < members@.len() ==> members@[i] != members@[j],
            forall|j: int|
                0 <= j < node.children().len() ==> members@.contains(#[trigger] node.children()[j])
                    || old(self).is_free(node.children()[j] as int),
            forall|i: int, j: int|
                0 <= i < j < node.children().len() ==> node.children()[i] != node.children()[j],
            forall|i: int| 0 <= i < members@.len() ==> node.children().contains(#[trigger] members@[i]),
        ensures
            final(self).inv(),
            c == old(self).regions().len(),
            final(self).regions().len() == c + 1,
            final(self).count() == old(self).count() - members@.len() + 1,
            final(self).live() == cleared(old(self).live(), members@).push(true),
            final(self).regions()[c as int].payload() == Some(node),
            forall|v: int|
                0 <= v < c ==> (#[trigger] final(self).regions()[v]).payload() == old(self).regions()[v].payload(),
            final(self).blocks() == old(self).blocks(),
            collapsed(*old(self), *final(self), members@, node),
            !final(self).self_edge(c as int),
            forall|x: int| 0 <= x < c ==> (#[trigger] final(self).self_edge(x) <==> old(self).self_edge(x)),
            old(self).settled() ==> final(self).settled(),
    {
        let ghost adj0 = self.rgraph.adj(true);
        let ghost radj0 = self.rgraph.adj(false);
        let ghost live0 = self.live@;
        let ghost n0 = self.rgraph@.len() as int;
        let nlen = self.live.len();
        let mut i: usize = 0;
        while i < members.len()
            invariant
                i <= members@.len(),
                n0 == nlen,
                self.rgraph == old(self).rgraph,
                self.blocks == old(self).blocks,
                live0 == old(self).live@,
                live0.len() == n0,
                self.live@ == cleared(live0, members@.take(i as int)),
                self.alive == live_count(self.live@, n0),
                self.alive + i == old(self).alive,
                forall|k: int| 0 <= k < members@.len() ==> 2 <= (#[trigger] members@[k]) < n0 && live0[members@[k] as int],
                forall|k: int, j: int| 0 <= k < j < members@.len() ==> members@[k] != members@[j],
            decreases members@.len() - i,
        {
            let m = members[i];
            proof {
                let cur = self.live@;
                assert(cur[m as int]) by {
                    if members@.take(i as int).contains(m) {
                        let k = choose|k: int| 0 <= k < i && members@.take(i as int)[k] == m;
                        assert(members@[k] == m);
                    }
                }
                lemma_live_count_clear(cur, m as int, n0);
                assert(cur.update(m as int, false) =~= cleared(live0, members@.take(i + 1))) by {
                    assert forall|x: int| 0 <= x < n0 implies cur.update(m as int, false)[x]
                        == cleared(live0, members@.take(i + 1))[x] by {
                        let t0 = members@.take(i as int);
                        let t1 = members@.take(i + 1);
                        if t1.contains(x as usize) {
                            let k = choose|k: int| 0 <= k < t1.len() && t1[k] == x as usize;
                            if k < i {
                                assert(t0[k] == x as usize);
                            }
                        }
                        if t0.contains(x as usize) {
                            let k = choose|k: int| 0 <= k < t0.len() && t0[k] == x as usize;
                            assert(t1[k] == x as usize);
                        }
                        if x == m {
                            assert(t1[i as int] == m);
                        }
                    }
                }
                lemma_live_count_bounds(cur.update(m as int, false), n0);
            }
            self.live[m] = false;
            self.alive -= 1;
            i += 1;
        }
        proof {
            assert(members@.take(members@.len() as int) =~= members@);
            lemma_live_count_bounds(self.live@, n0);
            lemma_live_count_push(self.live@, true);
        }
        let ghost node_children = node.children();
        let c = self.rgraph.add_vert(node);
        self.live.push(true);
        self.alive += 1;
        let ghost g1 = self.rgraph@;
        let ghost live1 = self.live@;
        let nl = self.live.len();
        let mut i: usize = 0;
        proof {
            assert(nl == n0 + 1);
            assert forall|a: int, b: int| #[trigger]
                has_edge(self.rgraph.adj(true), a, b) <==> has_edge(adj0, a, b) by {}
            lemma_rewire_start(adj0, self.rgraph.adj(true), live1, members@, c as int);
            assert forall|k: int| 0 <= k < members@.len() implies !live1[(
            #[trigger] members@[k]) as int] by {
                assert(members@.contains(members@[k]));
            }
            lemma_handed_start(
                adj0,
                radj0,
                self.rgraph.adj(true),
                self.rgraph.adj(false),
                live1,
                members@,
                c as int,
            );
        }
        while i < members.len()
            invariant
                i <= members@.len(),
                self.blocks == old(self).blocks,
                self.live@ == live1,
                live1 == cleared(live0, members@).push(true),
                self.alive == old(self).alive - members@.len() + 1,
                self.rgraph.wf(),
                self.rgraph@.len() == n0 + 1,
                c == n0,
                g1.len() == n0 + 1,
                forall|v: int| 0 <= v <= n0 ==> (#[trigger] self.rgraph@[v]).payload() == g1[v].payload(),
                forall|k: int|
                    0 <= k < members@.len() ==> 2 <= (#[trigger] members@[k]) < n0 && !live1[members@[k] as int],
                rewired(adj0, self.rgraph.adj(true), live1, members@, c as int, i as int, Seq::<IndexType>::empty(), Seq::<IndexType>::empty()),
                handed_on(
                    adj0,
                    radj0,
                    self.rgraph.adj(true),
                    self.rgraph.adj(false),
                    live1,
                    members@,
                    c as int,
                    i as int,
                    Seq::<IndexType>::empty(),
                    Seq::<IndexType>::empty(),
                ),
            decreases members@.len() - i,
        {
            let m = members[i];
            let ps = self.live_targets(m, false);
            proof {
                let cur = self.rgraph.adj(true);
                let rcur = self.rgraph.adj(false);
                lemma_handed_member(
                    adj0,
                    radj0,
                    cur,
                    rcur,
                    live1,
                    members@,
                    c as int,
                    i as int,
                    Seq::<IndexType>::empty(),
                    Seq::<IndexType>::empty(),
                    m,
                );
                assert(ps@ == distinct_live(radj0[m as int], live1));
                assert(mirrored(cur, rcur));
                assert forall|x: usize| #[trigger]
                    ps@.contains(x) <==> (x < c && live1[x as int] && has_edge(
                        adj0,
                        x as int,
                        m as int,
                    )) by {
                    assert(has_edge(cur, x as int, m as int) <==> has_edge(rcur, m as int, x as int));
                    if x < c {
                        assert(has_edge(cur, x as int, m as int) <==> has_edge(
                            adj0,
                            x as int,
                            m as int,
                        ));
                    } else if x == c {
                        assert(!has_edge(cur, c as int, m as int));
                    }
                }
                assert(ps@.take(0) =~= Seq::<IndexType>::empty());
            }
            let mut j: usize = 0;
            while j < ps.len()
                invariant
                    j <= ps@.len(),
                    self.blocks == old(self).blocks,
                    self.live@ == live1,
                    self.alive == old(self).alive - members@.len() + 1,
                    self.rgraph.wf(),
                    self.rgraph@.len() == n0 + 1,
                    c == n0,
                    g1.len() == n0 + 1,
                    i < members@.len(),
                    m == members@[i as int],
                    forall|v: int|
                        0 <= v <= n0 ==> (#[trigger] self.rgraph@[v]).payload() == g1[v].payload(),
                    forall|x: usize| #[trigger]
                        ps@.contains(x) <==> (x < c && live1[x as int] && has_edge(
                            adj0,
                            x as int,
                            m as int,
                        )),
                    rewired(
                        adj0,
                        self.rgraph.adj(true),
                        live1,
                        members@,
                        c as int,
                        i as int,
                        ps@.take(j as int),
                        Seq::<IndexType>::empty(),
                    ),
                    ps@ == distinct_live(radj0[m as int], live1),
                    forall|a: int, b: int| 0 <= a < b < ps@.len() ==> ps@[a] != ps@[b],
                    handed_on(
                        adj0,
                        radj0,
                        self.rgraph.adj(true),
                        self.rgraph.adj(false),
                        live1,
                        members@,
                        c as int,
                        i as int,
                        ps@.take(j as int),
                        Seq::<IndexType>::empty(),
                    ),
                decreases ps@.len() - j,
            {
                let p = ps[j];
                let ghost cur = self.rgraph.adj(true);
                let ghost rcur = self.rgraph.adj(false);
                proof {
                    assert(ps@.contains(p));
                    assert(!ps@.take(j as int).contains(p)) by {
                        if ps@.take(j as int).contains(p) {
                            let a = choose|a: int| 0 <= a < j && ps@.take(j as int)[a] == p;
                            assert(ps@[a] == p);
                        }
                    }
                }
                let linked = self.rgraph.link(p, c);
                proof {
                    let cur2 = self.rgraph.adj(true);
                    let rcur2 = self.rgraph.adj(false);
                    assert forall|x: int| 0 <= x <= c implies #[trigger] cur2[x] == (if x == p {
                        cur[x].push(c)
                    } else {
                        cur[x]
                    }) by {
                        assert(cur2[x] == self.rgraph@[x].out_edges());
                    }
                    assert forall|x: int| 0 <= x <= c implies #[trigger] rcur2[x] == (if x == c {
                        rcur[x].push(p)
                    } else {
                        rcur[x]
                    }) by {
                        assert(rcur2[x] == self.rgraph@[x].in_edges());
                    }
                    lemma_handed_in(
                        adj0,
                        radj0,
                        cur,
                        rcur,
                        cur2,
                        rcur2,
                        live1,
                        members@,
                        c as int,
                        i as int,
                        ps@.take(j as int),
                        Seq::<IndexType>::empty(),
                        p,
                    );
                    lemma_rewire_in(
                        adj0,
                        cur,
                        self.rgraph.adj(true),
                        live1,
                        members@,
                        c as int,
                        i as int,
                        ps@.take(j as int),
                        Seq::<IndexType>::empty(),
                        p,
                    );
                    assert(ps@.take(j + 1) =~= ps@.take(j as int).push(p));
                }
                j += 1;
            }
            let ts = self.live_targets(m, true);
            proof {
                assert(ps@.take(ps@.len() as int) =~= ps@);
                let cur = self.rgraph.adj(true);
                assert(!ps@.contains(m));
                lemma_handed_member(
                    adj0,
                    radj0,
                    cur,
                    self.rgraph.adj(false),
                    live1,
                    members@,
                    c as int,
                    i as int,
                    ps@,
                    Seq::<IndexType>::empty(),
                    m,
                );
                assert(ts@ == distinct_live(adj0[m as int], live1));
                assert forall|y: usize| #[trigger]
                    ts@.contains(y) <==> (y < c && live1[y as int] && has_edge(
                        adj0,
                        m as int,
                        y as int,
                    )) by {
                    if y < c {
                        assert(has_edge(cur, m as int, y as int) <==> has_edge(
                            adj0,
                            m as int,
                            y as int,
                        ));
                    } else if y == c {
                        assert(!has_edge(cur, m as int, c as int));
                    }
                }
                assert(ts@.take(0) =~= Seq::<IndexType>::empty());
            }
            let mut j: usize = 0;
            while j < ts.len()
                invariant
                    j <= ts@.len(),
                    self.blocks == old(self).blocks,
                    self.live@ == live1,
                    self.alive == old(self).alive - members@.len() + 1,
                    self.rgraph.wf(),
                    self.rgraph@.len() == n0 + 1,
                    c == n0,
                    g1.len() == n0 + 1,
                    i < members@.len(),
                    m == members@[i as int],
                    forall|v: int|
                        0 <= v <= n0 ==> (#[trigger] self.rgraph@[v]).payload() == g1[v].payload(),
                    forall|y: usize| #[trigger]
                        ts@.contains(y) <==> (y < c && live1[y as int] && has_edge(
                            adj0,
                            m as int,
                            y as int,
                        )),
                    rewired(
                        adj0,
                        self.rgraph.adj(true),
                        live1,
                        members@,
                        c as int,
                        i as int,
                        ps@,
                        ts@.take(j as int),
                    ),
                    ps@ == distinct_live(radj0[m as int], live1),
                    ts@ == distinct_live(adj0[m as int], live1),
                    forall|a: int, b: int| 0 <= a < b < ts@.len() ==> ts@[a] != ts@[b],
                    handed_on(
                        adj0,
                        radj0,
                        self.rgraph.adj(true),
                        self.rgraph.adj(false),
                        live1,
                        members@,
                        c as int,
                        i as int,
                        ps@,
                        ts@.take(j as int),
                    ),
                decreases ts@.len() - j,
            {
                let t = ts[j];
                let ghost cur = self.rgraph.adj(true);
                let ghost rcur = self.rgraph.adj(false);
                proof {
                    assert(ts@.contains(t));
                    assert(!ts@.take(j as int).contains(t)) by {
                        if ts@.take(j as int).contains(t) {
                            let a = choose|a: int| 0 <= a < j && ts@.take(j as int)[a] == t;
                            assert(ts@[a] == t);
                        }
                    }
                }
                let linked = self.rgraph.link(c, t);
                proof {
                    let cur2 = self.rgraph.adj(true);
                    let rcur2 = self.rgraph.adj(false);
                    assert forall|x: int| 0 <= x <= c implies #[trigger] cur2[x] == (if x == c {
                        cur[x].push(t)
                    } else {
                        cur[x]
                    }) by {
                        assert(cur2[x] == self.rgraph@[x].out_edges());
                    }
                    assert forall|x: int| 0 <= x <= c implies #[trigger] rcur2[x] == (if x == t {
                        rcur[x].push(c)
                    } else {
                        rcur[x]
                    }) by {
                        assert(rcur2[x] == self.rgraph@[x].in_edges());
                    }
                    lemma_handed_out(
                        adj0,
                        radj0,
                        cur,
                        rcur,
                        cur2,
                        rcur2,
                        live1,
                        members@,
                        c as int,
                        i as int,
                        ps@,
                        ts@.take(j as int),
                        t,
                    );
                    lemma_rewire_out(
                        adj0,
                        cur,
                        self.rgraph.adj(true),
                        live1,
                        members@,
                        c as int,
                        i as int,
                        ps@,
                        ts@.take(j as int),
                        t,
                    );
                    assert(ts@.take(j + 1) =~= ts@.take(j as int).push(t));
                }
                j += 1;
            }
            proof {
                assert(ts@.take(ts@.len() as int) =~= ts@);
                lemma_handed_next(
                    adj0,
                    radj0,
                    self.rgraph.adj(true),
                    self.rgraph.adj(false),
                    live1,
                    members@,
                    c as int,
                    i as int,
                    ps@,
                    ts@,
                );
                lemma_rewire_next(
                    adj0,
                    self.rgraph.adj(true),
                    live1,
                    members@,
                    c as int,
                    i as int,
                    ps@,
                    ts@,
                );
            }
            i += 1;
        }
        proof {
            let parts0 = old(self).parts();
            let parts1 = self.parts();
            let live1 = self.live@;
            assert(parts1.len() == n0 + 1);
            assert forall|x: int| 0 <= x < n0 implies parts1[x] == parts0[x] by {
                assert(self.rgraph@[x].payload() == g1[x].payload());
            }
            assert(parts1[n0] == node_children) by {
                assert(self.rgraph@[n0].payload() == g1[n0].payload());
            }
            assert forall|x: int, k: int|
                0 <= x < parts1.len() && 0 <= k < parts1[x].len() implies 2 <= (#[trigger] parts1[x][k]) < x
                && !live1[parts1[x][k] as int] by {
                if x < n0 {
                    assert(parts0[x][k] == parts1[x][k]);
                } else {
                    let ch = node_children[k];
                    if members@.contains(ch) {
                        let q = choose|q: int| 0 <= q < members@.len() && members@[q] == ch;
                        assert(2 <= members@[q] < n0);
                    }
                }
            }
            assert forall|x: int, i: int, y: int, j: int|
                0 <= x < parts1.len() && 0 <= i < parts1[x].len() && 0 <= y < parts1.len() && 0
                    <= j < parts1[y].len() && (#[trigger] parts1[x][i]) == (
                #[trigger] parts1[y][j]) implies x == y && i == j by {
                if x < n0 && y < n0 {
                    assert(parts0[x][i] == parts1[x][i] && parts0[y][j] == parts1[y][j]);
                } else if x == n0 && y == n0 {
                } else {
                    // one of the two is a part of the new region, the other of an old one
                    let (old_x, old_i, k) = if x < n0 {
                        (x, i, j)
                    } else {
                        (y, j, i)
                    };
                    let ch = node_children[k];
                    assert(parts0[old_x][old_i] == ch);
                    if members@.contains(ch) {
                        let q = choose|q: int| 0 <= q < members@.len() && members@[q] == ch;
                        assert(live0[members@[q] as int]);
                    } else {
                        assert(old(self).is_free(ch as int));
                    }
                    assert(false);
                }
            }
            assert forall|b: int| 2 <= b < self.blocks().len() && #[trigger] self.blocks()[b] implies self.covered(
                b,
            ) by {
                assert(old(self).covered(b));
                let r = choose|r: int| old(self).is_region(r) && #[trigger] old(self).holds(r, b);
                lemma_reachable_grows(parts0, parts1, r, b);
                if members@.contains(r as usize) {
                    let q = choose|q: int| 0 <= q < members@.len() && members@[q] == r as usize;
                    assert(node_children.contains(members@[q]));
                    let k = choose|k: int| 0 <= k < node_children.len() && node_children[k] == r as usize;
                    assert(parts1[n0][k] == r);
                    assert(has_edge(parts1, n0, r));
                    lemma_reachable_from_parent(parts1, n0, r, b);
                    assert(self.is_region(n0) && self.holds(n0, b));
                } else {
                    assert(self.is_region(r) && self.holds(r, b));
                }
            }
            assert(live1[0] && live1[1]) by {
                if members@.contains(0usize) {
                    let q = choose|q: int| 0 <= q < members@.len() && members@[q] == 0usize;
                    assert(2 <= members@[q]);
                }
                if members@.contains(1usize) {
                    let q = choose|q: int| 0 <= q < members@.len() && members@[q] == 1usize;
                    assert(2 <= members@[q]);
                }
            }
            let cur = self.rgraph.adj(true);
            assert(!has_edge(cur, c as int, c as int));
            assert forall|x: int| 0 <= x < c implies (#[trigger] self.self_edge(x) <==> old(
                self,
            ).self_edge(x)) by {
                assert(has_edge(cur, x, x) <==> has_edge(adj0, x, x));
            }
            if old(self).settled() {
                assert forall|x: int| self.is_region(x) implies !#[trigger] self.self_edge(x) by {
                    if x < c {
                        assert(old(self).is_region(x));
                        assert(!old(self).self_edge(x));
                    }
                }
            }
        }
        c
    }
}

/// The kinds of region that the rules of structuring recognise.
pub enum ShapeKind {
    Sequence,
    If,
    IfElse,
    Switch,
    While,
    DoWhile,
    For,
    CompoundCond,
}

/// A group of regions that make up one construct: the kind of construct, the
/// regions in the order the construct names them, and whether control comes
/// back from the end of the group to its head.
pub struct Shape {
    pub kind: ShapeKind,
    pub members: Seq<IndexType>,
    pub cyclic: bool,
}

/// A group of regions found in the region graph, with the node that will
/// stand for it.
pub struct Region {
    pub node: ControlNode,
    pub members: Vec<IndexType>,
    pub cyclic: bool,
}

/// The kind of shape a node stands for, if the rules build such nodes.
pub open spec fn kind_of(node: ControlNode) -> Option<ShapeKind> {
    match node {
        ControlNode::Sequence(_) => Some(ShapeKind::Sequence),
        ControlNode::If(_, _) => Some(ShapeKind::If),
        ControlNode::IfElse(_, _, _) => Some(ShapeKind::IfElse),
        ControlNode::Switch(_, _) => Some(ShapeKind::Switch),
        ControlNode::While(_, _) => Some(ShapeKind::While),
        ControlNode::DoWhile(_, _) => Some(ShapeKind::DoWhile),
        ControlNode::For(_, _, _) => Some(ShapeKind::For),
        ControlNode::CompoundCond(_) => Some(ShapeKind::CompoundCond),
        _ => None,
    }
}

/// The region found is the shape.
pub open spec fn fits(reg: Region, sh: Shape) -> bool {
    &&& reg.members@ == sh.members
    &&& reg.cyclic == sh.cyclic
    &&& reg.node.children() == sh.members
    &&& kind_of(reg.node) == Some(sh.kind)
}

/// What was found is what there is to find.
pub open spec fn found(r: Option<Region>, sh: Option<Shape>) -> bool {
    match (r, sh) {
        (Some(reg), Some(s)) => fits(reg, s),
        (None, None) => true,
        _ => false,
    }
}

/// The list holds `x` and nothing else.
pub open spec fn is_only(list: Seq<IndexType>, x: int) -> bool {
    list.len() == 1 && list[0] == x
}

/// Whether the list holds `x` and nothing else.
pub fn only(list: &Vec<IndexType>, x: IndexType) -> (r: bool)
    ensures
        r == is_only(list@, x as int),
{
    list.len() == 1 && list[0] == x
}

/// Whether two lists hold the same indices in the same order.
pub fn same_list(a: &Vec<IndexType>, b: &Vec<IndexType>) -> (r: bool)
    ensures
        r == (a@ == b@),
{
    if a.len() != b.len() {
        return false;
    }
    let mut i: usize = 0;
    while i < a.len()
        invariant
            a@.len() == b@.len(),
            i <= a@.len(),
            forall|j: int| 0 <= j < i ==> a@[j] == b@[j],
        decreases a.len() - i,
    {
        if a[i] != b[i] {
            return false;
        }
        i += 1;
    }
    assert(a@ =~= b@);
    true
}

impl SPSState {
    /// `x` is an arm of the branch at `h`: a region entered from `h` alone
    /// that leaves to at most one region.
    pub open spec fn arm(&self, h: int, x: int) -> bool {
        &&& self.is_region(x)
        &&& x != h
        &&& is_only(self.preds(x), h)
        &&& self.succs(x).len() <= 1
    }

    /// `t` is the one arm of a branch at `h` whose other way leads straight
    /// to `j`, where `t` leads too.
    pub open spec fn if_arm(&self, h: int, t: int, j: int) -> bool {
        &&& self.is_region(t)
        &&& t != h
        &&& is_only(self.preds(t), h)
        &&& is_only(self.succs(t), j)
    }

    /// `b` is the body of a loop with the test in `h`: entered from `h`
    /// alone, it leads back to `h` alone, and `h` dominates it.
    pub open spec fn loop_body(&self, idom: Seq<IndexType>, h: int, b: int) -> bool {
        &&& self.is_region(b)
        &&& b != h
        &&& is_only(self.preds(b), h)
        &&& is_only(self.succs(b), h)
        &&& ancestor(idom, h, b)
    }

    /// A loop with the test in its head `h`.
    pub open spec fn while_shape(&self, idom: Seq<IndexType>, h: int) -> Option<Shape> {
        let s = self.succs(h);
        if s.len() == 2 && self.loop_body(idom, h, s[0] as int) {
            Some(Shape { kind: ShapeKind::While, members: seq![h as usize, s[0]], cyclic: false })
        } else if s.len() == 2 && self.loop_body(idom, h, s[1] as int) {
            Some(Shape { kind: ShapeKind::While, members: seq![h as usize, s[1]], cyclic: false })
        } else {
            None
        }
    }

    /// The vertex `v` is a single basic block.
    pub open spec fn is_leaf(&self, v: int) -> bool {
        0 <= v < self.regions().len() && (match self.regions()[v].payload() {
            Some(ControlNode::Leaf(_)) => true,
            _ => false,
        })
    }

    /// The region `b` is a sequence that ends in a single basic block: the
    /// step of a counting loop.
    pub open spec fn ends_in_step(&self, b: int) -> bool {
        0 <= b < self.regions().len() && (match self.regions()[b].payload() {
            Some(ControlNode::Sequence(parts)) => parts@.len() > 0 && self.is_leaf(
                parts@.last() as int,
            ),
            _ => false,
        })
    }

    /// A loop with the test in its head `h`, whose body ends in a step and
    /// which is entered from a single basic block that leads nowhere else:
    /// the initialisation.
    pub open spec fn for_shape(&self, idom: Seq<IndexType>, h: int) -> Option<Shape> {
        match self.while_shape(idom, h) {
            Some(w) => {
                let b = w.members[1];
                let p = self.preds(h);
                let i = if p[0] == b {
                    p[1]
                } else {
                    p[0]
                };
                if p.len() == 2 && (p[0] == b || p[1] == b) && self.ends_in_step(b as int)
                    && self.is_region(i as int) && i != h && i != b && is_only(
                    self.succs(i as int),
                    h,
                ) && self.is_leaf(i as int) {
                    Some(
                        Shape {
                            kind: ShapeKind::For,
                            members: seq![i, h as usize, b],
                            cyclic: false,
                        },
                    )
                } else {
                    None
                }
            },
            None => None,
        }
    }

    /// A loop with the body `b` first and the test after it.
    pub open spec fn do_while_shape(&self, idom: Seq<IndexType>, b: int) -> Option<Shape> {
        let s = self.succs(b);
        if s.len() == 1 && self.is_region(s[0] as int) && s[0] != b && is_only(
            self.preds(s[0] as int),
            b,
        ) && self.succs(s[0] as int).len() == 2 && self.succs(s[0] as int).contains(b as usize)
            && ancestor(idom, b, s[0] as int) {
            Some(Shape { kind: ShapeKind::DoWhile, members: seq![b as usize, s[0]], cyclic: false })
        } else {
            None
        }
    }

    /// A branch at `h` into three or more arms that all leave to the same
    /// region, or all nowhere.
    pub open spec fn switch_shape(&self, h: int) -> Option<Shape> {
        let s = self.succs(h);
        if s.len() >= 3 && (forall|i: int|
            0 <= i < s.len() ==> self.arm(h, (#[trigger] s[i]) as int) && self.succs(s[i] as int)
                == self.succs(s[0] as int)) {
            Some(
                Shape {
                    kind: ShapeKind::Switch,
                    members: seq![h as usize] + s,
                    cyclic: self.succs(s[0] as int).contains(h as usize),
                },
            )
        } else {
            None
        }
    }

    /// A branch at `h` into two arms that leave to the same region, or both
    /// nowhere.
    pub open spec fn if_else_shape(&self, h: int) -> Option<Shape> {
        let s = self.succs(h);
        if s.len() == 2 && self.arm(h, s[0] as int) && self.arm(h, s[1] as int) && self.succs(
            s[0] as int,
        ) == self.succs(s[1] as int) {
            Some(
                Shape {
                    kind: ShapeKind::IfElse,
                    members: seq![h as usize, s[0], s[1]],
                    cyclic: self.succs(s[0] as int).contains(h as usize),
                },
            )
        } else {
            None
        }
    }

    /// A branch at `h` that either runs one arm or skips it.
    pub open spec fn if_shape(&self, h: int) -> Option<Shape> {
        let s = self.succs(h);
        if s.len() == 2 && self.if_arm(h, s[0] as int, s[1] as int) {
            Some(Shape { kind: ShapeKind::If, members: seq![h as usize, s[0]], cyclic: false })
        } else if s.len() == 2 && self.if_arm(h, s[1] as int, s[0] as int) {
            Some(Shape { kind: ShapeKind::If, members: seq![h as usize, s[1]], cyclic: false })
        } else {
            None
        }
    }

    /// `h2` is a second test behind the branch at `h`: entered from `h` alone,
    /// it branches two ways, one of which is the other way `x` out of `h`.
    pub open spec fn second_test(&self, h: int, h2: int, x: int) -> bool {
        &&& self.is_region(h2)
        &&& h2 != h
        &&& is_only(self.preds(h2), h)
        &&& self.succs(h2).len() == 2
        &&& self.succs(h2).contains(x as usize)
        &&& !self.succs(h2).contains(h as usize)
    }

    /// Two tests that combine into one condition: the branch at `h` leads to
    /// a second test and to where that test leads too. The two become the
    /// head of the branch or loop that they decide.
    pub open spec fn compound_shape(&self, h: int) -> Option<Shape> {
        let s = self.succs(h);
        if s.len() == 2 && self.second_test(h, s[0] as int, s[1] as int) {
            Some(
                Shape {
                    kind: ShapeKind::CompoundCond,
                    members: seq![h as usize, s[0]],
                    cyclic: false,
                },
            )
        } else if s.len() == 2 && self.second_test(h, s[1] as int, s[0] as int) {
            Some(
                Shape {
                    kind: ShapeKind::CompoundCond,
                    members: seq![h as usize, s[1]],
                    cyclic: false,
                },
            )
        } else {
            None
        }
    }

    /// Two regions one after the other: `v` leads to one region alone, which
    /// is entered from `v` alone.
    pub open spec fn seq_shape(&self, v: int) -> Option<Shape> {
        let s = self.succs(v);
        if s.len() == 1 && self.is_region(s[0] as int) && s[0] != v && is_only(
            self.preds(s[0] as int),
            v,
        ) {
            Some(
                Shape {
                    kind: ShapeKind::Sequence,
                    members: seq![v as usize, s[0]],
                    cyclic: self.succs(s[0] as int).contains(v as usize),
                },
            )
        } else {
            None
        }
    }

    /// The shape that begins at `v`: loops come before branches, branches
    /// before combined tests, and those before sequences.
    pub open spec fn shape_at(&self, idom: Seq<IndexType>, v: int) -> Option<Shape> {
        if self.for_shape(idom, v).is_some() {
            self.for_shape(idom, v)
        } else if self.while_shape(idom, v).is_some() {
            self.while_shape(idom, v)
        } else if self.do_while_shape(idom, v).is_some() {
            self.do_while_shape(idom, v)
        } else if self.switch_shape(v).is_some() {
            self.switch_shape(v)
        } else if self.if_else_shape(v).is_some() {
            self.if_else_shape(v)
        } else if self.if_shape(v).is_some() {
            self.if_shape(v)
        } else if self.compound_shape(v).is_some() {
            self.compound_shape(v)
        } else {
            self.seq_shape(v)
        }
    }

    /// The members of the region are two or more distinct regions of their
    /// own, and the node names exactly them.
    pub open spec fn region_valid(&self, reg: Region) -> bool {
        &&& reg.members@.len() >= 2
        &&& forall|i: int| 0 <= i < reg.members@.len() ==> self.is_region(#[trigger] reg.members@[i] as int)
        &&& forall|i: int, j: int| 0 <= i < j < reg.members@.len() ==> reg.members@[i] != reg.members@[j]
        &&& reg.node.children() == reg.members@
    }

    /// Whether `v` is a region of its own.
    pub fn is_region_at(&self, v: IndexType) -> (r: bool)
        requires
            self.inv(),
        ensures
            r == self.is_region(v as int),
    {
        v >= 2 && v < self.live.len() && self.live[v]
    }

    fn arm_at(&self, h: IndexType, x: IndexType) -> (r: bool)
        requires
            self.inv(),
        ensures
            r == self.arm(h as int, x as int),
    {
        if !self.is_region_at(x) || x == h {
            return false;
        }
        let p = self.live_targets(x, false);
        let s = self.live_targets(x, true);
        only(&p, h) && s.len() <= 1
    }

    fn if_arm_at(&self, h: IndexType, t: IndexType, j: IndexType) -> (r: bool)
        requires
            self.inv(),
        ensures
            r == self.if_arm(h as int, t as int, j as int),
    {
        if !self.is_region_at(t) || t == h {
            return false;
        }
        let p = self.live_targets(t, false);
        let s = self.live_targets(t, true);
        only(&p, h) && only(&s, j)
    }

    fn loop_body_at(&self, idom: &Vec<IndexType>, h: IndexType, b: IndexType) -> (r: bool)
        requires
            self.inv(),
            is_forest(idom@),
            idom@.len() == self.regions().len(),
        ensures
            r == self.loop_body(idom@, h as int, b as int),
    {
        if !self.is_region_at(b) || b == h {
            return false;
        }
        let p = self.live_targets(b, false);
        let s = self.live_targets(b, true);
        only(&p, h) && only(&s, h) && dominates(idom.as_slice(), h, b)
    }

    fn try_while(&self, idom: &Vec<IndexType>, h: IndexType) -> (r: Option<Region>)
        requires
            self.inv(),
            self.is_region(h as int),
            is_forest(idom@),
            idom@.len() == self.regions().len(),
        ensures
            found(r, self.while_shape(idom@, h as int)),
            r.is_some() ==> self.region_valid(r.unwrap()),
    {
        let s = self.live_targets(h, true);
        if s.len() != 2 {
            return None;
        }
        let b = if self.loop_body_at(idom, h, s[0]) {
            s[0]
        } else if self.loop_body_at(idom, h, s[1]) {
            s[1]
        } else {
            return None;
        };
        let members = vec![h, b];
        let node = ControlNode::While(h, b);
        assert(node.children() =~= members@);
        Some(Region { node, members, cyclic: false })
    }

    fn is_leaf_at(&self, v: IndexType) -> (r: bool)
        ensures
            r == self.is_leaf(v as int),
    {
        match self.region(v) {
            Some(ControlNode::Leaf(_)) => true,
            _ => false,
        }
    }

    fn ends_in_step_at(&self, b: IndexType) -> (r: bool)
        ensures
            r == self.ends_in_step(b as int),
    {
        match self.region(b) {
            Some(ControlNode::Sequence(parts)) => parts.len() > 0 && self.is_leaf_at(
                parts[parts.len() - 1],
            ),
            _ => false,
        }
    }

    fn try_for(&self, idom: &Vec<IndexType>, h: IndexType) -> (r: Option<Region>)
        requires
            self.inv(),
            self.is_region(h as int),
            is_forest(idom@),
            idom@.len() == self.regions().len(),
        ensures
            found(r, self.for_shape(idom@, h as int)),
            r.is_some() ==> self.region_valid(r.unwrap()),
    {
        let w = self.try_while(idom, h);
        match w {
            None => None,
            Some(reg) => {
                let b = reg.members[1];
                let p = self.live_targets(h, false);
                if p.len() != 2 || !(p[0] == b || p[1] == b) || !self.ends_in_step_at(b) {
                    return None;
                }
                let i = if p[0] == b {
                    p[1]
                } else {
                    p[0]
                };
                if !self.is_region_at(i) || i == h || i == b {
                    return None;
                }
                let si = self.live_targets(i, true);
                if !only(&si, h) || !self.is_leaf_at(i) {
                    return None;
                }
                let members = vec![i, h, b];
                let node = ControlNode::For(i, h, b);
                assert(node.children() =~= members@);
                Some(Region { node, members, cyclic: false })
            },
        }
    }

    fn try_do_while(&self, idom: &Vec<IndexType>, b: IndexType) -> (r: Option<Region>)
        requires
            self.inv(),
            self.is_region(b as int),
            is_forest(idom@),
            idom@.len() == self.regions().len(),
        ensures
            found(r, self.do_while_shape(idom@, b as int)),
            r.is_some() ==> self.region_valid(r.unwrap()),
    {
        let s = self.live_targets(b, true);
        if s.len() != 1 {
            return None;
        }
        let c = s[0];
        if !self.is_region_at(c) || c == b {
            return None;
        }
        let p = self.live_targets(c, false);
        let sc = self.live_targets(c, true);
        if !(only(&p, b) && sc.len() == 2 && list_has(&sc, b) && dominates(idom.as_slice(), b, c)) {
            return None;
        }
        let members = vec![b, c];
        let node = ControlNode::DoWhile(b, c);
        assert(node.children() =~= members@);
        Some(Region { node, members, cyclic: false })
    }

    fn try_switch(&self, h: IndexType) -> (r: Option<Region>)
        requires
            self.inv(),
            self.is_region(h as int),
        ensures
            found(r, self.switch_shape(h as int)),
            r.is_some() ==> self.region_valid(r.unwrap()),
    {
        let s = self.live_targets(h, true);
        if s.len() < 3 {
            return None;
        }
        proof {
            lemma_distinct_live(self.regions()[h as int].out_edges(), self.live());
            assert(s@.contains(s@[0]));
        }
        let first = self.live_targets(s[0], true);
        let mut members: Vec<IndexType> = Vec::new();
        members.push(h);
        let mut i: usize = 0;
        while i < s.len()
            invariant
                self.inv(),
                self.is_region(h as int),
                s@ == self.succs(h as int),
                s@.len() >= 3,
                s@[0] < self.regions().len(),
                first@ == self.succs(s@[0] as int),
                i <= s@.len(),
                members@ == seq![h] + s@.take(i as int),
                forall|k: int|
                    0 <= k < i ==> self.arm(h as int, (#[trigger] s@[k]) as int) && self.succs(
                        s@[k] as int,
                    ) == first@,
            decreases s@.len() - i,
        {
            let x = s[i];
            if !self.arm_at(h, x) {
                return None;
            }
            let sx = self.live_targets(x, true);
            if !same_list(&sx, &first) {
                return None;
            }
            members.push(x);
            proof {
                assert(s@.take(i + 1) =~= s@.take(i as int).push(x));
                assert(seq![h] + s@.take(i + 1) =~= (seq![h] + s@.take(i as int)).push(x));
            }
            i += 1;
        }
        let cyclic = list_has(&first, h);
        proof {
            assert(s@.take(s@.len() as int) =~= s@);
            let m = members@;
            assert forall|a: int, b: int| 0 <= a < b < m.len() implies m[a] != m[b] by {
                if a == 0 {
                    assert(m[b] == s@[b - 1]);
                    assert(self.arm(h as int, s@[b - 1] as int));
                } else {
                    assert(m[a] == s@[a - 1] && m[b] == s@[b - 1]);
                }
            }
            assert forall|a: int| 0 <= a < m.len() implies self.is_region(#[trigger] m[a] as int) by {
                if a > 0 {
                    assert(m[a] == s@[a - 1]);
                    assert(self.arm(h as int, s@[a - 1] as int));
                }
            }
        }
        let node = ControlNode::Switch(h, s);
        Some(Region { node, members, cyclic })
    }

    fn try_if_else(&self, h: IndexType) -> (r: Option<Region>)
        requires
            self.inv(),
            self.is_region(h as int),
        ensures
            found(r, self.if_else_shape(h as int)),
            r.is_some() ==> self.region_valid(r.unwrap()),
    {
        let s = self.live_targets(h, true);
        if s.len() != 2 {
            return None;
        }
        let t = s[0];
        let f = s[1];
        if !self.arm_at(h, t) || !self.arm_at(h, f) {
            return None;
        }
        let st = self.live_targets(t, true);
        let sf = self.live_targets(f, true);
        if !same_list(&st, &sf) {
            return None;
        }
        let cyclic = list_has(&st, h);
        proof {
            lemma_distinct_live(self.regions()[h as int].out_edges(), self.live());
        }
        let members = vec![h, t, f];
        let node = ControlNode::IfElse(h, t, f);
        assert(node.children() =~= members@);
        Some(Region { node, members, cyclic })
    }

    fn try_if(&self, h: IndexType) -> (r: Option<Region>)
        requires
            self.inv(),
            self.is_region(h as int),
        ensures
            found(r, self.if_shape(h as int)),
            r.is_some() ==> self.region_valid(r.unwrap()),
    {
        let s = self.live_targets(h, true);
        if s.len() != 2 {
            return None;
        }
        let t = if self.if_arm_at(h, s[0], s[1]) {
            s[0]
        } else if self.if_arm_at(h, s[1], s[0]) {
            s[1]
        } else {
            return None;
        };
        let members = vec![h, t];
        let node = ControlNode::If(h, t);
        assert(node.children() =~= members@);
        Some(Region { node, members, cyclic: false })
    }

    fn second_test_at(&self, h: IndexType, h2: IndexType, x: IndexType) -> (r: bool)
        requires
            self.inv(),
        ensures
            r == self.second_test(h as int, h2 as int, x as int),
    {
        if !self.is_region_at(h2) || h2 == h {
            return false;
        }
        let p = self.live_targets(h2, false);
        let s = self.live_targets(h2, true);
        only(&p, h) && s.len() == 2 && list_has(&s, x) && !list_has(&s, h)
    }

    fn try_compound(&self, h: IndexType) -> (r: Option<Region>)
        requires
            self.inv(),
            self.is_region(h as int),
        ensures
            found(r, self.compound_shape(h as int)),
            r.is_some() ==> self.region_valid(r.unwrap()),
    {
        let s = self.live_targets(h, true);
        if s.len() != 2 {
            return None;
        }
        let h2 = if self.second_test_at(h, s[0], s[1]) {
            s[0]
        } else if self.second_test_at(h, s[1], s[0]) {
            s[1]
        } else {
            return None;
        };
        let members = vec![h, h2];
        let node = ControlNode::CompoundCond(vec![h, h2]);
        assert(node.children() =~= members@);
        Some(Region { node, members, cyclic: false })
    }

    fn try_seq(&self, v: IndexType) -> (r: Option<Region>)
        requires
            self.inv(),
            self.is_region(v as int),
        ensures
            found(r, self.seq_shape(v as int)),
            r.is_some() ==> self.region_valid(r.unwrap()),
    {
        let s = self.live_targets(v, true);
        if s.len() != 1 {
            return None;
        }
        let x = s[0];
        if !self.is_region_at(x) || x == v {
            return None;
        }
        let p = self.live_targets(x, false);
        if !only(&p, v) {
            return None;
        }
        let sx = self.live_targets(x, true);
        let cyclic = list_has(&sx, v);
        let members = vec![v, x];
        let node = ControlNode::Sequence(vec![v, x]);
        assert(node.children() =~= members@);
        Some(Region { node, members, cyclic })
    }

    /// The region that begins at `v`, if the regions there make up one of
    /// the shapes.
    pub fn find_region(&self, idom: &Vec<IndexType>, v: IndexType) -> (r: Option<Region>)
        requires
            self.inv(),
            self.is_region(v as int),
            is_forest(idom@),
            idom@.len() == self.regions().len(),
        ensures
            found(r, self.shape_at(idom@, v as int)),
            r.is_some() ==> self.region_valid(r.unwrap()),
    {
        let r = self.try_for(idom, v);
        if r.is_some() {
            return r;
        }
        let r = self.try_while(idom, v);
        if r.is_some() {
            return r;
        }
        let r = self.try_do_while(idom, v);
        if r.is_some() {
            return r;
        }
        let r = self.try_switch(v);
        if r.is_some() {
            return r;
        }
        let r = self.try_if_else(v);
        if r.is_some() {
            return r;
        }
        let r = self.try_if(v);
        if r.is_some() {
            return r;
        }
        let r = self.try_compound(v);
        if r.is_some() {
            return r;
        }
        self.try_seq(v)
    }
}

impl SPSState {
    /// The state has grown out of `before`: what was a vertex then is one
    /// now, with the node it had, and the same blocks have to be placed.
    pub open spec fn extends(&self, before: &SPSState) -> bool {
        &&& before.regions().len() <= self.regions().len()
        &&& self.blocks() == before.blocks()
        &&& forall|v: int|
            0 <= v < before.regions().len() ==> (#[trigger] self.regions()[v]).payload()
                == before.regions()[v].payload()
    }

    /// By vertex, the live graph: the live successors of a live vertex, each
    /// once, and nothing for a vertex that is not alive.
    pub open spec fn live_lists(&self) -> Seq<Seq<IndexType>> {
        Seq::new(
            self.regions().len(),
            |v: int|
                if self.live()[v] {
                    self.succs(v)
                } else {
                    Seq::empty()
                },
        )
    }

    /// An edge of the region graph between two vertices that are alive.
    pub open spec fn live_edge(&self, a: int, b: int) -> bool {
        &&& 0 <= a < self.live().len()
        &&& 0 <= b < self.live().len()
        &&& self.live()[a]
        &&& self.live()[b]
        &&& has_edge(self.graph().adj(true), a, b)
    }

    /// A vertex at `v` is a region of its own at which a shape begins.
    pub open spec fn matches_at(&self, idom: Seq<IndexType>, v: int) -> bool {
        self.is_region(v) && self.shape_at(idom, v).is_some()
    }

    /// A state with a region of its own has three live vertices or more.
    pub proof fn lemma_has_region(&self, c: int)
        requires
            self.inv(),
            self.is_region(c),
        ensures
            self.count() >= 3,
    {
        let live = self.live();
        let n = live.len() as int;
        lemma_live_count_bounds(live, 0);
        assert(live_count(live, 2) == 2) by {
            assert(live_count(live, 0) == 0);
            assert(live_count(live, 1) == 1);
        }
        lemma_live_count_mono(live, 2, c);
        assert(live_count(live, c + 1) == live_count(live, c) + 1);
        lemma_live_count_mono(live, c + 1, n);
    }

    /// Adds a vertex that is no region of its own: a mark that a region
    /// names among its parts.
    fn add_mark(&mut self, node: ControlNode) -> (g: IndexType)
        requires
            old(self).inv(),
            node.children().len() == 0,
        ensures
            final(self).inv(),
            final(self).extends(old(self)),
            g == old(self).regions().len(),
            final(self).regions().len() == g + 1,
            final(self).regions()[g as int].payload() == Some(node),
            final(self).count() == old(self).count(),
            final(self).live() == old(self).live().push(false),
            final(self).is_free(g as int),
            marked(*old(self), *final(self), node),
            old(self).settled() ==> final(self).settled(),
    {
        let ghost parts0 = self.parts();
        let g = self.rgraph.add_vert(node);
        proof {
            lemma_live_count_push(self.live@, false);
        }
        self.live.push(false);
        proof {
            let parts1 = self.parts();
            assert forall|x: int| 0 <= x < parts0.len() implies parts1[x] == parts0[x] by {}
            assert forall|b: int| 2 <= b < self.blocks().len() && #[trigger] self.blocks()[b] implies self.covered(
                b,
            ) by {
                assert(old(self).covered(b));
                let r = choose|r: int| old(self).is_region(r) && #[trigger] old(self).holds(r, b);
                lemma_reachable_grows(parts0, parts1, r, b);
                assert(self.is_region(r) && self.holds(r, b));
            }
            assert forall|x: int, k: int|
                0 <= x < parts1.len() && 0 <= k < parts1[x].len() implies 2 <= (#[trigger] parts1[x][k]) < x
                && !self.live()[parts1[x][k] as int] by {
                if x < parts0.len() {
                    assert(parts0[x][k] == parts1[x][k]);
                }
            }
            assert forall|x: int, i: int, y: int, j: int|
                0 <= x < parts1.len() && 0 <= i < parts1[x].len() && 0 <= y < parts1.len() && 0
                    <= j < parts1[y].len() && (#[trigger] parts1[x][i]) == (
                #[trigger] parts1[y][j]) implies x == y && i == j by {
                assert(parts0[x][i] == parts1[x][i] && parts0[y][j] == parts1[y][j]);
            }
            assert(self.is_free(g as int)) by {
                assert forall|x: int, i: int|
                    0 <= x < parts1.len() && 0 <= i < parts1[x].len() implies (
                #[trigger] parts1[x][i]) != g by {}
            }
            if old(self).settled() {
                assert forall|x: int| self.is_region(x) implies !#[trigger] self.self_edge(x) by {
                    assert(old(self).is_region(x));
                    assert(!old(self).self_edge(x));
                    assert(has_edge(self.graph().adj(true), x, x) <==> has_edge(
                        old(self).graph().adj(true),
                        x,
                        x,
                    ));
                }
            }
            let none = Seq::<IndexType>::empty();
            assert(self.rgraph@[g as int].out_edges() =~= none);
            assert(self.rgraph@[g as int].in_edges() =~= none);
            assert(self.graph().adj(true) =~= old(self).graph().adj(true).push(none));
            assert(self.graph().adj(false) =~= old(self).graph().adj(false).push(none));
        }
        g
    }

    /// The smallest index from `from` on that is a region of its own; the
    /// number of vertices if there is none.
    pub open spec fn least_region(&self, from: int) -> int
        decreases self.live().len() - from,
    {
        if from >= self.live().len() || self.is_region(from) {
            from
        } else {
            self.least_region(from + 1)
        }
    }

    /// The region `x` is entered from two or more live vertices.
    pub open spec fn is_entry(&self, x: int) -> bool {
        self.is_region(x) && self.preds(x).len() >= 2
    }

    /// The last of the first `k` vertices of `order` that is entered from two
    /// or more live vertices.
    pub open spec fn last_entry(&self, order: Seq<IndexType>, k: int) -> Option<IndexType>
        decreases k,
    {
        if k <= 0 {
            None
        } else if self.is_entry(order[k - 1] as int) {
            Some(order[k - 1])
        } else {
            self.last_entry(order, k - 1)
        }
    }

    /// The region that is set out of line when no shape begins anywhere: the
    /// last in `order` that is entered from two or more live vertices, or the
    /// second region by index if there is none.
    pub open spec fn jump_target(&self, order: Seq<IndexType>) -> int {
        match self.last_entry(order, order.len() as int) {
            Some(x) => x as int,
            None => self.least_region(self.least_region(2) + 1),
        }
    }

    /// The region that `v` is joined to: its immediate dominator, or if that
    /// is no other region of its own, the first other region by index.
    pub open spec fn jump_partner(&self, idom: Seq<IndexType>, v: int) -> int {
        if self.is_region(idom[v] as int) && idom[v] != v {
            idom[v] as int
        } else if self.least_region(2) != v {
            self.least_region(2)
        } else {
            self.least_region(self.least_region(2) + 1)
        }
    }

    /// Two regions of their own, the two with the smallest indices.
    fn two_regions(&self) -> (r: (IndexType, IndexType))
        requires
            self.inv(),
            self.count() > 3,
        ensures
            self.is_region(r.0 as int),
            self.is_region(r.1 as int),
            r.0 < r.1,
            r.0 == self.least_region(2),
            r.1 == self.least_region(r.0 + 1),
    {
        let n = self.live.len();
        let mut a: usize = 2;
        while a < n && !self.live[a]
            invariant
                n == self.live@.len(),
                n == self.regions().len(),
                2 <= a <= n,
                forall|x: int| 2 <= x < a ==> !self.live@[x],
                self.least_region(2) == self.least_region(a as int),
            decreases n - a,
        {
            a += 1;
        }
        proof {
            lemma_live_count_bounds(self.live@, 2);
            if a == n {
                lemma_live_count_gap(self.live@, 2, n as int);
            }
        }
        let mut b: usize = a + 1;
        while b < n && !self.live[b]
            invariant
                n == self.live@.len(),
                n == self.regions().len(),
                2 <= a < b <= n,
                forall|x: int| a < x < b ==> !self.live@[x],
                self.least_region(a + 1) == self.least_region(b as int),
            decreases n - b,
        {
            b += 1;
        }
        proof {
            if b == n {
                lemma_live_count_gap(self.live@, 2, a as int);
                assert(live_count(self.live@, a + 1) == live_count(self.live@, a as int) + 1);
                lemma_live_count_gap(self.live@, a + 1, n as int);
            }
        }
        (a, b)
    }

    /// The graph of the vertices that are alive, with their indices kept: it
    /// has the edges that lead from a live vertex to a live vertex, and a
    /// vertex that has become part of a region is left without edges.
    fn snapshot(&self) -> (g: Graph<IndexType>)
        requires
            self.inv(),
        ensures
            g.wf(),
            g@.len() == self.regions().len(),
            g.adj(true) == self.live_lists(),
            forall|a: int, b: int| #[trigger]
                has_edge(g.adj(true), a, b) <==> self.live_edge(a, b),
    {
        let n = self.rgraph.size();
        let mut g: Graph<IndexType> = Graph::default();
        let mut i: usize = 2;
        while i < n
            invariant
                2 <= i <= n,
                g.wf(),
                g@.len() == i,
                forall|a: int, b: int| !#[trigger] has_edge(g.adj(true), a, b),
                forall|x: int| 0 <= x < i ==> (#[trigger] g@[x]).out_edges().len() == 0,
            decreases n - i,
        {
            g.add_vert(i);
            i += 1;
        }
        let mut v: usize = 0;
        proof {
            assert forall|x: int| 0 <= x < n implies (#[trigger] g@[x]).out_edges()
                == Seq::<IndexType>::empty() by {
                assert(g@[x].out_edges() =~= Seq::<IndexType>::empty());
            }
        }
        while v < n
            invariant
                self.inv(),
                n == self.regions().len(),
                v <= n,
                g.wf(),
                g@.len() == n,
                forall|a: int, b: int| #[trigger]
                    has_edge(g.adj(true), a, b) <==> (a < v && self.live_edge(a, b)),
                forall|x: int|
                    0 <= x < n ==> (#[trigger] g@[x]).out_edges() == (if x < v && self.live()[x] {
                        self.succs(x)
                    } else {
                        Seq::<IndexType>::empty()
                    }),
            decreases n - v,
        {
            if self.live[v] {
                let ts = self.live_targets(v, true);
                let mut j: usize = 0;
                proof {
                    assert(ts@.take(0) =~= Seq::<IndexType>::empty());
                }
                while j < ts.len()
                    invariant
                        self.inv(),
                        n == self.regions().len(),
                        v < n,
                        self.live()[v as int],
                        j <= ts@.len(),
                        g.wf(),
                        g@.len() == n,
                        ts@ == self.succs(v as int),
                        forall|x: int|
                            0 <= x < n ==> (#[trigger] g@[x]).out_edges() == (if x == v {
                                ts@.take(j as int)
                            } else if x < v && self.live()[x] {
                                self.succs(x)
                            } else {
                                Seq::<IndexType>::empty()
                            }),
                        forall|y: usize| #[trigger]
                            ts@.contains(y) <==> (has_edge(
                                self.graph().adj(true),
                                v as int,
                                y as int,
                            ) && y < self.live().len() && self.live()[y as int]),
                        forall|a: int, b: int| #[trigger]
                            has_edge(g.adj(true), a, b) <==> ((a < v && self.live_edge(a, b)) || (a
                                == v && 0 <= b < n && ts@.take(j as int).contains(b as usize))),
                    decreases ts@.len() - j,
                {
                    let t = ts[j];
                    let ghost ga = g.adj(true);
                    proof {
                        assert(ts@.contains(t));
                    }
                    let linked = g.link(v, t);
                    proof {
                        let t0 = ts@.take(j as int);
                        let t1 = ts@.take(j + 1);
                        assert(t1 =~= t0.push(t));
                        assert forall|a: int, b: int| #[trigger]
                            has_edge(g.adj(true), a, b) <==> ((a < v && self.live_edge(a, b)) || (a
                                == v && 0 <= b < n && t1.contains(b as usize))) by {
                            assert(has_edge(ga, a, b) <==> ((a < v && self.live_edge(a, b)) || (a
                                == v && 0 <= b < n && t0.contains(b as usize))));
                            if 0 <= b < n {
                                if t0.contains(b as usize) {
                                    let q = choose|q: int| 0 <= q < t0.len() && t0[q] == b as usize;
                                    assert(t1[q] == b as usize);
                                }
                                if t1.contains(b as usize) {
                                    let q = choose|q: int| 0 <= q < t1.len() && t1[q] == b as usize;
                                    if q < t0.len() {
                                        assert(t0[q] == b as usize);
                                    }
                                }
                                if b == t {
                                    assert(t1[j as int] == t);
                                }
                            }
                        }
                    }
                    j += 1;
                }
                proof {
                    assert(ts@.take(ts@.len() as int) =~= ts@);
                    assert forall|x: int| 0 <= x < n implies (#[trigger] g@[x]).out_edges() == (if x
                        < v + 1 && self.live()[x] {
                        self.succs(x)
                    } else {
                        Seq::<IndexType>::empty()
                    }) by {}
                    assert forall|a: int, b: int| #[trigger]
                        has_edge(g.adj(true), a, b) <==> (a < v + 1 && self.live_edge(a, b)) by {
                        if a == v && 0 <= b < n {
                            assert(ts@.contains(b as usize) <==> (has_edge(
                                self.graph().adj(true),
                                v as int,
                                b,
                            ) && self.live()[b]));
                        }
                        if a == v && self.live_edge(a, b) {
                            crate::util::paths::lemma_edge_target(self.graph().adj(true), a, b);
                        }
                    }
                }
            }
            v += 1;
        }
        proof {
            assert(g.adj(true) =~= self.live_lists());
        }
        g
    }

    /// `order`, followed by every index from the first that can be a region.
    fn with_all(&self, order: &Vec<IndexType>) -> (r: Vec<IndexType>)
        requires
            self.inv(),
        ensures
            r@ == candidates(order@, self.regions().len()),
    {
        let n = self.rgraph.size();
        let mut r = copy_indices(order);
        let mut v: usize = 2;
        proof {
            assert(r@ =~= order@ + Seq::new(0, |i: int| (i + 2) as usize));
        }
        while v < n
            invariant
                2 <= v <= n,
                n == self.regions().len(),
                r@ == order@ + Seq::new((v - 2) as nat, |i: int| (i + 2) as usize),
            decreases n - v,
        {
            r.push(v);
            proof {
                assert(r@ =~= order@ + Seq::new((v + 1 - 2) as nat, |i: int| (i + 2) as usize));
            }
            v += 1;
        }
        r
    }

    /// The first region in `order` at which a shape begins, with that shape.
    fn find_first(&self, order: &Vec<IndexType>, idom: &Vec<IndexType>) -> (r: Option<Region>)
        requires
            self.inv(),
            is_forest(idom@),
            idom@.len() == self.regions().len(),
        ensures
            r.is_some() ==> self.region_valid(r.unwrap()),
            match r {
                Some(reg) => exists|i: int|
                    0 <= i < order@.len() && #[trigger] self.matches_at(idom@, order@[i] as int)
                        && fits(reg, self.shape_at(idom@, order@[i] as int).unwrap()) && forall|
                        j: int,
                    |
                        0 <= j < i ==> !self.matches_at(idom@, #[trigger] order@[j] as int),
                None => forall|j: int|
                    0 <= j < order@.len() ==> !self.matches_at(idom@, #[trigger] order@[j] as int),
            },
    {
        let mut i: usize = 0;
        while i < order.len()
            invariant
                self.inv(),
                is_forest(idom@),
                idom@.len() == self.regions().len(),
                i <= order@.len(),
                forall|j: int| 0 <= j < i ==> !self.matches_at(idom@, #[trigger] order@[j] as int),
            decreases order@.len() - i,
        {
            let v = order[i];
            if self.is_region_at(v) {
                let r = self.find_region(idom, v);
                if r.is_some() {
                    assert(self.matches_at(idom@, order@[i as int] as int));
                    return r;
                }
            }
            i += 1;
        }
        None
    }

    /// Replaces the members of a region by the region; if control comes back
    /// from the end of the region to its head, the region becomes the body
    /// of a loop without end. The index of the new region is returned.
    fn apply(&mut self, reg: Region) -> (c: IndexType)
        requires
            old(self).inv(),
            old(self).region_valid(reg),
        ensures
            final(self).inv(),
            final(self).extends(old(self)),
            final(self).count() == old(self).count() - reg.members@.len() + 1,
            final(self).is_region(c as int),
            final(self).regions()[old(self).regions().len() as int].payload() == Some(reg.node),
            !reg.cyclic ==> c == old(self).regions().len() && final(self).regions().len() == c + 1,
            reg.cyclic ==> c == old(self).regions().len() + 1 && final(self).regions().len() == c
                + 1 && final(self).regions()[c as int].payload() == Some(
                ControlNode::SelfLoop((c - 1) as usize),
            ),
            exists|mid: SPSState| #[trigger]
                applied(*old(self), *final(self), mid, reg.members@, reg.node, reg.cyclic),
            old(self).settled() ==> final(self).settled(),
    {
        let cyclic = reg.cyclic;
        let c = self.collapse(&reg.members, reg.node);
        let ghost mid = *self;
        proof {
            if !cyclic {
                assert(applied(*old(self), mid, mid, reg.members@, reg.node, reg.cyclic));
            }
        }
        if cyclic {
            let one = vec![c];
            let node = ControlNode::SelfLoop(c);
            assert(node.children() =~= one@);
            assert(one@[0] == c);
            let c2 = self.collapse(&one, node);
            proof {
                assert(one@ =~= seq![c]);
                assert(applied(*old(self), *self, mid, reg.members@, reg.node, reg.cyclic));
            }
            c2
        } else {
            c
        }
    }

    /// What is done when no shape begins anywhere: a region is set out of
    /// line and reached by jumps. The region is the last in
    /// `order` that is entered from two or more live vertices, or the second
    /// region by index if there is none; it goes together with its immediate
    /// dominator, or with the first other region if that is no region of its
    /// own. The two form a sequence: the one, a jump, the other, and the mark
    /// of a jump target.
    fn fall_back(
        &mut self,
        order: &Vec<IndexType>,
        idom: &Vec<IndexType>,
        Ghost(gadj): Ghost<Seq<Seq<IndexType>>>,
    ) -> (c: IndexType)
        requires
            old(self).inv(),
            old(self).count() > 3,
            old(self).settled(),
            surveyed(*old(self), idom@, gadj, order@),
            forall|v: int| !#[trigger] old(self).matches_at(idom@, v),
        ensures
            final(self).inv(),
            final(self).extends(old(self)),
            final(self).count() == old(self).count() - 1,
            final(self).is_region(c as int),
            c == old(self).regions().len() + 2,
            final(self).regions().len() == c + 1,
            exists|m1: SPSState, m2: SPSState, node: ControlNode| #[trigger]
                joined_by(*old(self), *final(self), idom@, gadj, order@, m1, m2, node),
            old(self).settled() ==> final(self).settled(),
    {
        let (a, b) = self.two_regions();
        let mut v: usize = b;
        let mut i: usize = order.len();
        let mut hit = false;
        while i > 0 && !hit
            invariant
                self.inv(),
                i <= order@.len(),
                self.is_region(v as int),
                !hit ==> v == b && self.last_entry(order@, order@.len() as int) == self.last_entry(
                    order@,
                    i as int,
                ),
                hit ==> self.last_entry(order@, order@.len() as int) == Some(v),
            decreases i,
        {
            i -= 1;
            let x = order[i];
            if self.is_region_at(x) {
                let p = self.live_targets(x, false);
                if p.len() >= 2 {
                    v = x;
                    hit = true;
                }
            }
        }
        proof {
            assert(v == self.jump_target(order@));
            assert(idom@.len() == self.regions().len());
        }
        let d = idom[v];
        let u = if self.is_region_at(d) && d != v {
            d
        } else if a != v {
            a
        } else {
            b
        };
        proof {
            assert(u == self.jump_partner(idom@, v as int));
        }
        let g = self.add_mark(ControlNode::Goto);
        let ghost s1 = *self;
        let t = self.add_mark(ControlNode::Tail);
        let ghost s2 = *self;
        let members = vec![u, v];
        let parts = vec![u, g, v, t];
        let node = ControlNode::Sequence(parts);
        proof {
            assert(node.children() =~= seq![u, g, v, t]);
            assert(members@[0] == u && members@[1] == v);
            assert(self.is_free(g as int)) by {
                assert(s1.is_free(g as int));
                assert forall|x: int, i: int|
                    0 <= x < self.parts().len() && 0 <= i < self.parts()[x].len() implies (
                #[trigger] self.parts()[x][i]) != g by {
                    if x < s1.parts().len() {
                        assert(self.parts()[x] == s1.parts()[x]);
                        assert(s1.parts()[x][i] != g);
                    }
                }
            }
            assert forall|j: int| 0 <= j < node.children().len() implies members@.contains(
                #[trigger] node.children()[j],
            ) || self.is_free(node.children()[j] as int) by {
                if j == 0 {
                    assert(members@[0] == u);
                } else if j == 2 {
                    assert(members@[1] == v);
                }
            }
            assert forall|k: int| 0 <= k < members@.len() implies node.children().contains(
                #[trigger] members@[k],
            ) by {
                if k == 0 {
                    assert(node.children()[0] == u);
                } else {
                    assert(node.children()[2] == v);
                }
            }
        }
        let c = self.collapse(&members, node);
        proof {
            assert(self.regions()[c as int].payload().unwrap().children() == seq![u, g, v, t]);
            assert(members@ =~= seq![u, v]);
            assert(joined_by(*old(self), *self, idom@, gadj, order@, s1, s2, node));
        }
        c
    }

    /// One step of structuring, when no region has an edge to itself: the
    /// first shape found, in postorder of the live graph and then by index,
    /// is replaced by a region; if there is none, two regions are joined by
    /// jumps.
    fn step(&mut self)
        requires
            old(self).inv(),
            old(self).count() > 3,
            old(self).settled(),
        ensures
            final(self).inv(),
            final(self).extends(old(self)),
            3 <= final(self).count() < old(self).count(),
            is_move(*old(self), *final(self)),
            final(self).settled(),
    {
        let snap = self.snapshot();
        let idom = snap.compute_dom_tree(true);
        let order = snap.postorder(true);
        let ghost gadj = snap.adj(true);
        proof {
            assert(is_live_graph(*self, gadj));
            assert(surveyed(*self, idom@, gadj, order@));
        }
        let cand = self.with_all(&order);
        let pick = self.find_first(&cand, &idom);
        proof {
            if pick.is_none() {
                assert forall|v: int| !#[trigger] self.matches_at(idom@, v) by {
                    if self.matches_at(idom@, v) {
                        let j = order@.len() + v - 2;
                        assert(cand@[j] == v);
                        assert(!self.matches_at(idom@, cand@[j] as int));
                    }
                }
            }
        }
        let c = match pick {
            Some(reg) => {
                let c = self.apply(reg);
                proof {
                    let i = choose|i: int|
                        0 <= i < cand@.len() && #[trigger] old(self).matches_at(
                            idom@,
                            cand@[i] as int,
                        ) && fits(reg, old(self).shape_at(idom@, cand@[i] as int).unwrap())
                            && forall|j: int|
                            0 <= j < i ==> !old(self).matches_at(idom@, #[trigger] cand@[j] as int);
                    let mid = choose|mid: SPSState| #[trigger]
                        applied(*old(self), *self, mid, reg.members@, reg.node, reg.cyclic);
                    assert(reduced_by(
                        *old(self),
                        *self,
                        idom@,
                        gadj,
                        order@,
                        i,
                        reg.node,
                        mid,
                    ));
                }
                c
            },
            None => self.fall_back(&order, &idom, Ghost(gadj)),
        };
        proof {
            self.lemma_has_region(c as int);
        }
    }
}

/// Along a way down the trees of regions the indices fall.
proof fn lemma_way_falls(st: SPSState, p: Seq<int>, i: int)
    requires
        st.tree_ok(),
        is_path(st.parts(), p),
        0 <= i < p.len(),
    ensures
        0 <= p[i] < st.parts().len(),
        p[i] <= p[0] - i,
    decreases i,
{
    if i > 0 {
        lemma_way_falls(st, p, i - 1);
        assert(edge_at(st.parts(), p, i - 1));
        let parts = st.parts();
        let e = choose|e: int| 0 <= e < parts[p[i - 1]].len() && #[trigger] parts[p[i - 1]][e] == p[i];
        assert(parts[p[i - 1]][e] < p[i - 1]);
    }
}

/// In a consistent state a region holds a vertex in one way only: no vertex
/// is placed twice.
pub proof fn lemma_held_once(st: SPSState, r: int, b: int, p: Seq<int>, q: Seq<int>)
    requires
        st.inv(),
        connects(st.parts(), p, r, b),
        connects(st.parts(), q, r, b),
    ensures
        p == q,
    decreases p.len(),
{
    let parts = st.parts();
    let n = p.len() as int;
    let m = q.len() as int;
    lemma_way_falls(st, p, n - 1);
    lemma_way_falls(st, q, m - 1);
    if n == 1 || m == 1 {
        // a way of more than one vertex ends below its beginning
        assert(n == 1 && m == 1);
        assert(p =~= q);
    } else {
        assert(edge_at(parts, p, n - 2));
        assert(edge_at(parts, q, m - 2));
        let x = p[n - 2];
        let y = q[m - 2];
        lemma_way_falls(st, p, n - 2);
        lemma_way_falls(st, q, m - 2);
        let i = choose|i: int| 0 <= i < parts[x].len() && #[trigger] parts[x][i] == b;
        let j = choose|j: int| 0 <= j < parts[y].len() && #[trigger] parts[y][j] == b;
        assert(parts[x][i] == parts[y][j]);
        assert(x == y);
        let p2 = p.drop_last();
        let q2 = q.drop_last();
        assert forall|k: int| 0 <= k < p2.len() - 1 implies #[trigger] edge_at(parts, p2, k) by {
            assert(edge_at(parts, p, k));
        }
        assert forall|k: int| 0 <= k < q2.len() - 1 implies #[trigger] edge_at(parts, q2, k) by {
            assert(edge_at(parts, q, k));
        }
        lemma_held_once(st, r, x, p2, q2);
        assert(p =~= p2.push(b));
        assert(q =~= q2.push(b));
    }
}

/// `gadj` is the graph of the live vertices of `st`: it has the edges of the
/// region graph that lead from a live vertex to a live vertex.
pub open spec fn is_live_graph(st: SPSState, gadj: Seq<Seq<IndexType>>) -> bool {
    &&& gadj.len() == st.regions().len()
    &&& closed_adj(gadj)
    &&& forall|a: int, b: int| #[trigger] has_edge(gadj, a, b) <==> st.live_edge(a, b)
}

/// `after` is `before` with the regions `members` replaced by one new region
/// `node`: the state is consistent, the members are no regions of their own
/// any more, and the new region has their edges from and to the vertices
/// that remain alive, in the order of the members and of their lists.
pub open spec fn collapsed(
    before: SPSState,
    after: SPSState,
    members: Seq<IndexType>,
    node: ControlNode,
) -> bool {
    &&& after.inv()
    &&& after.regions().len() == before.regions().len() + 1
    &&& after.extends(&before)
    &&& after.regions()[before.regions().len() as int].payload() == Some(node)
    &&& after.live() == cleared(before.live(), members).push(true)
    &&& rewired(
        before.graph().adj(true),
        after.graph().adj(true),
        after.live(),
        members,
        before.regions().len() as int,
        members.len() as int,
        Seq::empty(),
        Seq::empty(),
    )
    &&& handed_on(
        before.graph().adj(true),
        before.graph().adj(false),
        after.graph().adj(true),
        after.graph().adj(false),
        after.live(),
        members,
        before.regions().len() as int,
        members.len() as int,
        Seq::empty(),
        Seq::empty(),
    )
}

/// `after` is `before` with one more vertex `node` that is no region of its
/// own and has no edges.
pub open spec fn marked(before: SPSState, after: SPSState, node: ControlNode) -> bool {
    &&& after.inv()
    &&& after.regions().len() == before.regions().len() + 1
    &&& after.extends(&before)
    &&& after.regions()[before.regions().len() as int].payload() == Some(node)
    &&& after.live() == before.live().push(false)
    &&& forall|a: int, b: int| #[trigger]
        has_edge(after.graph().adj(true), a, b) <==> has_edge(before.graph().adj(true), a, b)
    &&& after.graph().adj(true) == before.graph().adj(true).push(Seq::empty())
    &&& after.graph().adj(false) == before.graph().adj(false).push(Seq::empty())
}

/// The region `v` has become the body of a loop without end.
pub open spec fn wrapped(before: SPSState, after: SPSState, v: int) -> bool {
    collapsed(before, after, seq![v as usize], ControlNode::SelfLoop(v as usize))
}

/// `members` have been replaced by `node`, which gave `mid`; if control came
/// back from the end of the new region to its head, the region has then
/// become the body of a loop without end.
pub open spec fn applied(
    before: SPSState,
    after: SPSState,
    mid: SPSState,
    members: Seq<IndexType>,
    node: ControlNode,
    cyclic: bool,
) -> bool {
    &&& collapsed(before, mid, members, node)
    &&& if cyclic {
        wrapped(mid, after, before.regions().len() as int)
    } else {
        after == mid
    }
}

/// Where a step of structuring looks for a shape: the vertices of `order`,
/// then every vertex by index.
pub open spec fn candidates(order: Seq<IndexType>, n: nat) -> Seq<IndexType> {
    order + Seq::new((n - 2) as nat, |i: int| (i + 2) as usize)
}

/// What a step of structuring goes by: `gadj` is the graph of the live
/// vertices, `idom` its dominator tree from the root, and `order` what a
/// depth-first walk of it from the root yields in postorder, which is what
/// can be reached from the root.
pub open spec fn surveyed(
    before: SPSState,
    idom: Seq<IndexType>,
    gadj: Seq<Seq<IndexType>>,
    order: Seq<IndexType>,
) -> bool {
    &&& gadj == before.live_lists()
    &&& is_live_graph(before, gadj)
    &&& is_dom_tree(gadj, 0, idom)
    &&& order == yields(gadj, start_cursor(gadj.len(), 0), gadj.len())
    &&& exists|par: Seq<IndexType>| #[trigger] is_postorder(gadj, 0, order, par)
}

/// A shape has been replaced by a region: the vertex at `i` is the first,
/// in `order` and then by index, that is a region of its own at which a shape
/// begins, and `node` stands for that shape.
pub open spec fn reduced_by(
    before: SPSState,
    after: SPSState,
    idom: Seq<IndexType>,
    gadj: Seq<Seq<IndexType>>,
    order: Seq<IndexType>,
    i: int,
    node: ControlNode,
    mid: SPSState,
) -> bool {
    &&& before.settled()
    &&& surveyed(before, idom, gadj, order)
    &&& 0 <= i < candidates(order, before.regions().len()).len()
    &&& before.matches_at(idom, candidates(order, before.regions().len())[i] as int)
    &&& forall|j: int|
        0 <= j < i ==> !before.matches_at(
            idom,
            (#[trigger] candidates(order, before.regions().len())[j]) as int,
        )
    &&& kind_of(node) == Some(
        before.shape_at(idom, candidates(order, before.regions().len())[i] as int).unwrap().kind,
    )
    &&& node.children() == before.shape_at(
        idom,
        candidates(order, before.regions().len())[i] as int,
    ).unwrap().members
    &&& applied(
        before,
        after,
        mid,
        before.shape_at(idom, candidates(order, before.regions().len())[i] as int).unwrap().members,
        node,
        before.shape_at(idom, candidates(order, before.regions().len())[i] as int).unwrap().cyclic,
    )
}

/// Two regions have been joined by jumps, because more than one region is
/// left and no shape begins anywhere: after the marks of a jump and of a jump
/// target have been added, a sequence of the partner, the jump, the region
/// set out of line and the target has replaced the two.
pub open spec fn joined_by(
    before: SPSState,
    after: SPSState,
    idom: Seq<IndexType>,
    gadj: Seq<Seq<IndexType>>,
    order: Seq<IndexType>,
    m1: SPSState,
    m2: SPSState,
    node: ControlNode,
) -> bool {
    &&& before.count() > 3
    &&& before.settled()
    &&& surveyed(before, idom, gadj, order)
    &&& forall|v: int| !#[trigger] before.matches_at(idom, v)
    &&& before.is_region(before.jump_target(order))
    &&& before.is_region(before.jump_partner(idom, before.jump_target(order)))
    &&& before.jump_partner(idom, before.jump_target(order)) != before.jump_target(order)
    &&& marked(before, m1, ControlNode::Goto)
    &&& marked(m1, m2, ControlNode::Tail)
    &&& kind_of(node) == Some(ShapeKind::Sequence)
    &&& node.children() == seq![
        before.jump_partner(idom, before.jump_target(order)) as usize,
        before.regions().len() as usize,
        before.jump_target(order) as usize,
        (before.regions().len() + 1) as usize,
    ]
    &&& collapsed(
        m2,
        after,
        seq![
            before.jump_partner(idom, before.jump_target(order)) as usize,
            before.jump_target(order) as usize,
        ],
        node,
    )
}

/// One step of structuring leads from `before` to `after`: the first region
/// with an edge to itself becomes the body of a loop; or, if there is no such
/// region, the first shape, in the postorder of the live graph and then by
/// index, is replaced by a region; or, if no shape begins anywhere, two
/// regions are joined by jumps.
pub open spec fn is_move(before: SPSState, after: SPSState) -> bool {
    ||| exists|v: int|
        before.is_region(v) && before.self_edge(v) && #[trigger] wrapped(before, after, v)
            && forall|x: int| before.is_region(x) && x < v ==> !#[trigger] before.self_edge(x)
    ||| exists|
        idom: Seq<IndexType>,
        gadj: Seq<Seq<IndexType>>,
        order: Seq<IndexType>,
        i: int,
        node: ControlNode,
        mid: SPSState,
    | #[trigger]
        reduced_by(before, after, idom, gadj, order, i, node, mid)
    ||| exists|
        idom: Seq<IndexType>,
        gadj: Seq<Seq<IndexType>>,
        order: Seq<IndexType>,
        m1: SPSState,
        m2: SPSState,
        node: ControlNode,
    | #[trigger]
        joined_by(before, after, idom, gadj, order, m1, m2, node)
}

/// A step of structuring leads from the state at `i` to the next.
pub open spec fn move_at(chain: Seq<SPSState>, i: int) -> bool {
    is_move(chain[i], chain[i + 1])
}

/// Steps of structuring lead from `before` to `after`.
pub open spec fn derives(before: SPSState, after: SPSState) -> bool {
    exists|chain: Seq<SPSState>|
        chain.len() >= 1 && chain[0] == before && chain.last() == after && #[trigger] all_moves(
            chain,
        )
}

/// Every state of the chain but the last leads to the next by a step.
pub open spec fn all_moves(chain: Seq<SPSState>) -> bool {
    forall|i: int| 0 <= i < chain.len() - 1 ==> #[trigger] move_at(chain, i)
}

/// A state derives from itself, by no step at all.
pub proof fn lemma_derives_none(a: SPSState)
    ensures
        derives(a, a),
{
    let chain = seq![a];
    assert(all_moves(chain));
    assert(chain[0] == a && chain.last() == a);
}

/// What derives from a state by steps and one step more derives from it.
pub proof fn lemma_derives_more(a: SPSState, b: SPSState, c: SPSState)
    requires
        derives(a, b),
        is_move(b, c),
    ensures
        derives(a, c),
{
    let chain = choose|chain: Seq<SPSState>|
        chain.len() >= 1 && chain[0] == a && chain.last() == b && #[trigger] all_moves(chain);
    let longer = chain.push(c);
    assert forall|i: int| 0 <= i < longer.len() - 1 implies #[trigger] move_at(longer, i) by {
        if i < chain.len() - 1 {
            assert(move_at(chain, i));
            assert(longer[i] == chain[i] && longer[i + 1] == chain[i + 1]);
        } else {
            assert(longer[i] == b && longer[i + 1] == c);
        }
    }
    assert(all_moves(longer));
    assert(longer[0] == a && longer.last() == c);
}

/// Where a shape begins there is a second region: every shape is made of two
/// regions or more.
pub proof fn lemma_shape_needs_two(st: SPSState, idom: Seq<IndexType>, h: int) -> (x: int)
    requires
        st.is_region(h),
        st.shape_at(idom, h).is_some(),
    ensures
        st.is_region(x),
        x != h,
{
    let s = st.succs(h);
    if st.for_shape(idom, h).is_some() {
        let b = st.while_shape(idom, h).unwrap().members[1];
        let p = st.preds(h);
        if p[0] == b {
            p[1] as int
        } else {
            p[0] as int
        }
    } else if st.while_shape(idom, h).is_some() {
        if st.loop_body(idom, h, s[0] as int) {
            s[0] as int
        } else {
            s[1] as int
        }
    } else if st.do_while_shape(idom, h).is_some() {
        s[0] as int
    } else if st.switch_shape(h).is_some() {
        assert(st.arm(h, s[0] as int));
        s[0] as int
    } else if st.if_else_shape(h).is_some() {
        s[0] as int
    } else if st.if_shape(h).is_some() {
        if st.if_arm(h, s[0] as int, s[1] as int) {
            s[0] as int
        } else {
            s[1] as int
        }
    } else if st.compound_shape(h).is_some() {
        if st.second_test(h, s[0] as int, s[1] as int) {
            s[0] as int
        } else {
            s[1] as int
        }
    } else {
        s[0] as int
    }
}

/// No step of structuring leads on from a structured state.
pub proof fn lemma_structured_is_final(st: SPSState, next: SPSState)
    requires
        st.inv(),
        st.is_structured(),
    ensures
        !is_move(st, next),
{
    if is_move(st, next) {
        if exists|
            idom: Seq<IndexType>,
            gadj: Seq<Seq<IndexType>>,
            order: Seq<IndexType>,
            i: int,
            node: ControlNode,
            mid: SPSState,
        | #[trigger]
            reduced_by(st, next, idom, gadj, order, i, node, mid) {
            let (idom, gadj, order, i, node, mid) = choose|
                idom: Seq<IndexType>,
                gadj: Seq<Seq<IndexType>>,
                order: Seq<IndexType>,
                i: int,
                node: ControlNode,
                mid: SPSState,
            | #[trigger]
                reduced_by(st, next, idom, gadj, order, i, node, mid);
            let h = candidates(order, st.regions().len())[i] as int;
            assert(st.matches_at(idom, h));
            let x = lemma_shape_needs_two(st, idom, h);
            lemma_unique_live(st.live(), h, x);
        }
    }
}

/// What derives from a structured state is that state.
pub proof fn lemma_structured_stays(st: SPSState, after: SPSState)
    requires
        st.inv(),
        st.is_structured(),
        derives(st, after),
    ensures
        after == st,
{
    let chain = choose|chain: Seq<SPSState>|
        chain.len() >= 1 && chain[0] == st && chain.last() == after && #[trigger] all_moves(chain);
    if chain.len() >= 2 {
        assert(move_at(chain, 0));
        lemma_structured_is_final(st, chain[1]);
    }
}

/// Two regions are joined by jumps only if no shape begins at any region.
pub proof fn lemma_jump_needs_no_shape(
    before: SPSState,
    after: SPSState,
    idom: Seq<IndexType>,
    gadj: Seq<Seq<IndexType>>,
    order: Seq<IndexType>,
    m1: SPSState,
    m2: SPSState,
    node: ControlNode,
    h: int,
)
    requires
        joined_by(before, after, idom, gadj, order, m1, m2, node),
        before.is_region(h),
    ensures
        before.shape_at(idom, h).is_none(),
{
    assert(!before.matches_at(idom, h));
}

/// While a region has an edge to itself, the only step is to make the first
/// such region the body of a loop.
pub proof fn lemma_unsettled_step(st: SPSState, next: SPSState) -> (v: int)
    requires
        !st.settled(),
        is_move(st, next),
    ensures
        st.is_region(v),
        st.self_edge(v),
        forall|x: int| st.is_region(x) && x < v ==> !#[trigger] st.self_edge(x),
        wrapped(st, next, v),
{
    choose|v: int|
        st.is_region(v) && st.self_edge(v) && #[trigger] wrapped(st, next, v) && forall|x: int|
            st.is_region(x) && x < v ==> !#[trigger] st.self_edge(x)
}

/// What derives from a state by one step or more derives from what the first
/// step leads to.
pub proof fn lemma_derives_first(st: SPSState, after: SPSState) -> (next: SPSState)
    requires
        derives(st, after),
        after != st,
    ensures
        is_move(st, next),
        derives(next, after),
{
    let chain = choose|chain: Seq<SPSState>|
        chain.len() >= 1 && chain[0] == st && chain.last() == after && #[trigger] all_moves(chain);
    assert(chain.len() >= 2);
    assert(move_at(chain, 0));
    let rest = chain.skip(1);
    assert forall|i: int| 0 <= i < rest.len() - 1 implies #[trigger] move_at(rest, i) by {
        assert(move_at(chain, i + 1));
        assert(rest[i] == chain[i + 1] && rest[i + 1] == chain[i + 2]);
    }
    assert(all_moves(rest));
    assert(rest[0] == chain[1]);
    assert(rest.last() == after);
    chain[1]
}

impl Structurizer for SPSState {
    open spec fn wf(&self) -> bool {
        self.inv()
    }

    /// One region is left, and control does not come back from its end to
    /// its beginning.
    open spec fn is_structured(&self) -> bool {
        self.count() == 3 && self.settled()
    }

    /// No vertex is a region of its own.
    open spec fn is_void(&self) -> bool {
        self.count() < 3
    }

    /// Structures the region graph: first every region with an edge to itself
    /// becomes the body of a loop without end, then shapes are replaced by
    /// regions until one region is left. Every block that had to be placed
    /// is then held by that region.
    fn structurize(&mut self)
        ensures
            final(self).extends(old(self)),
            final(self).count() == (if old(self).count() >= 3 {
                3
            } else {
                old(self).count()
            }),
            derives(*old(self), *final(self)),
    {
        let n0 = self.rgraph.size();
        let mut v: usize = 2;
        proof {
            assert(n0 >= 2);
            lemma_derives_none(*self);
        }
        while v < n0
            invariant
                old(self).inv(),
                self.inv(),
                self.extends(old(self)),
                self.count() == old(self).count(),
                n0 == old(self).regions().len(),
                2 <= v <= n0,
                old(self).is_structured() ==> *self == *old(self),
                derives(*old(self), *self),
                forall|x: int|
                    self.is_region(x) && (x < v || x >= n0) ==> !#[trigger] self.self_edge(x),
            decreases n0 - v,
        {
            if self.live[v] && self.has_self_edge(v) {
                let one = vec![v];
                let node = ControlNode::SelfLoop(v);
                let ghost before = *self;
                proof {
                    assert(node.children() =~= one@);
                    assert(one@[0] == v);
                    if old(self).is_structured() {
                        assert(self.is_region(v as int));
                        assert(false);
                    }
                }
                let c = self.collapse(&one, node);
                proof {
                    assert(one@ =~= seq![v]);
                    assert(wrapped(before, *self, v as int));
                    lemma_derives_more(*old(self), before, *self);
                }
            }
            v += 1;
        }
        while self.alive > 3
            invariant
                old(self).inv(),
                self.inv(),
                self.extends(old(self)),
                self.count() >= 3 || self.count() == old(self).count(),
                self.count() <= old(self).count(),
                old(self).is_structured() ==> *self == *old(self),
                derives(*old(self), *self),
                self.settled(),
            decreases self.alive,
        {
            let ghost before = *self;
            self.step();
            proof {
                lemma_derives_more(*old(self), before, *self);
            }
        }
        proof {
            lemma_live_count_bounds(self.live@, 0);
            lemma_live_count_mono(self.live@, 2, self.live@.len() as int);
            assert(live_count(self.live@, 2) == 2) by {
                assert(live_count(self.live@, 0) == 0);
                assert(live_count(self.live@, 1) == 1);
            }
        }
    }
}

/// `node` is the outcome of structuring the flow graph `graph`: steps of
/// structuring lead from the state structuring starts from to a consistent
/// state with one region left, in which every basic block of `graph` is a
/// leaf at its own index; `node` is that region, and it holds every block
/// that can be reached from the root.
pub open spec fn structured_result(graph: Graph<BasicBlock>, node: ControlNode) -> bool {
    exists|first: SPSState, st: SPSState| #[trigger]
        derives(first, st) && first.is_initial(graph) && st.inv() && st.is_structured()
            && graph@.len() <= st.regions().len() && (forall|b: int|
            2 <= b < graph@.len() ==> (#[trigger] st.regions()[b]).payload() == Some(
                ControlNode::Leaf(b as usize),
            )) && (forall|root: int| #[trigger]
            st.is_region(root) ==> node.alike(&st.regions()[root].payload().unwrap()) && forall|
                b: int,
            |
                2 <= b < graph@.len() && reachable(graph.adj(true), 0, b) ==> #[trigger] st.holds(
                    root,
                    b,
                ))
}

/// Some basic block of the graph can be reached from the root.
pub open spec fn has_reachable_block(graph: Graph<BasicBlock>) -> bool {
    exists|b: int| 2 <= b < graph@.len() && #[trigger] reachable(graph.adj(true), 0, b)
}

/// Recovers the structure of a routine: the region that stands for the whole
/// of it. A flow graph whose edges or pseudo-vertices are not as they should
/// be is refused, and so is a routine without a block that can be reached.
pub fn semantic_preserving_structurize(flowgraph: &PDRoutine) -> (r: Result<ControlNode, String>)
    ensures
        match r {
            Ok(node) => flowgraph.blocks.forward_ok() && has_reachable_block(flowgraph.blocks)
                && structured_result(flowgraph.blocks, node),
            Err(e) => if !flowgraph.blocks.forward_ok() {
                e@ == "malformed flow graph"@
            } else {
                !has_reachable_block(flowgraph.blocks) && e@ == "no basic block can be reached"@
            },
        },
{
    if !flowgraph.blocks.check_forward() {
        return Err("malformed flow graph".to_owned());
    }
    let mut state = SPSState::new(&flowgraph.blocks);
    let ghost s0 = state;
    let ghost graph = flowgraph.blocks;
    let ghost adj = graph.adj(true);
    if state.alive < 3 {
        proof {
            if has_reachable_block(graph) {
                let b = choose|b: int| 2 <= b < graph@.len() && #[trigger] reachable(adj, 0, b);
                assert(state.live()[b]);
                state.lemma_has_region(b);
            }
        }
        return Err("no basic block can be reached".to_owned());
    }
    proof {
        // a count of three or more means that some block is alive
        lemma_live_count_bounds(state.live(), 2);
        if !has_reachable_block(graph) {
            assert forall|x: int| 2 <= x < state.live().len() implies !state.live()[x] by {
                if state.live()[x] {
                    assert(reachable(adj, 0, x));
                }
            }
            lemma_live_count_gap(state.live(), 2, state.live().len() as int);
        }
    }
    state.structurize();
    match state.root_region() {
        Some(x) => {
            let node = match state.region(x) {
                Some(n) => n.duplicate(),
                None => ControlNode::Leaf(x),
            };
            proof {
                assert(state.regions()[x as int].payload().is_some()) by {
                    assert(state.graph().wf());
                }
                assert forall|b: int|
                    2 <= b < graph@.len() && reachable(adj, 0, b) implies #[trigger] state.holds(
                    x as int,
                    b,
                ) by {
                    assert(s0.live()[b]);
                    assert(state.blocks()[b]);
                    assert(state.covered(b));
                    let r0 = choose|r0: int| state.is_region(r0) && #[trigger] state.holds(r0, b);
                    assert(r0 == x);
                }
                assert forall|b: int| 2 <= b < graph@.len() implies (#[trigger] state.regions()[b]).payload()
                    == Some(ControlNode::Leaf(b as usize)) by {
                    assert(s0.regions()[b].payload() == Some(ControlNode::Leaf(b as usize)));
                }
                assert(state.inv());
                assert(structured_result(graph, node));
            }
            Ok(node)
        },
        None => Err("no basic block can be reached".to_owned()),
    }
}

} // verus!
