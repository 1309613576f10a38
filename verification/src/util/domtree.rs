//! The theory behind the dominator computation: how ancestors in a
//! depth-first spanning tree show in the preorder numbers, and what the
//! union-find forest stands for while vertices are processed from the
//! highest number down.

use crate::util::dfs::{before, dfs_tree, DfsTree};
use crate::util::disjointset::merged;
use crate::util::forest::{
    ancestor, is_forest, is_top, lemma_ancestor_antisym, lemma_ancestor_self,
    lemma_ancestor_transitive, lemma_ancestor_unfold, lemma_child_toward, lemma_ranked_is_forest,
    lemma_top_fixed, lemma_walk_step, reaches_top, walk,
};
use crate::util::paths::{
    closed_adj, connects, edge_at, has_edge, is_path, lemma_path_join, lemma_path_part,
    lemma_path_push, mirrored,
};
use crate::util::semidom::{
    is_idom, is_semi, lemma_first_sat, lemma_idom_deferred, lemma_idom_direct,
    lemma_path_low_ancestor, lemma_path_seen, lemma_same_num, lemma_tree_path_between, sd_path,
    semis_final,
};
use vstd::prelude::*;

verus! {

/// `x` lies on the parent chain from `v` up to `r`, `r` itself left out.
pub open spec fn between(par: Seq<usize>, v: int, r: int, x: int) -> bool {
    ancestor(par, x, v) && ancestor(par, r, x) && x != r
}

/// The nearest ancestor of `v`, `v` included, whose number is at most `cur`.
/// An unnumbered vertex is its own.
pub open spec fn anchor(t: DfsTree, v: int, cur: int) -> int
    decreases t.num[v],
{
    if 0 <= v < t.seen.len() && t.seen[v] && t.num[v] > cur && 0 <= t.par[v] < t.seen.len()
        && t.num[t.par[v] as int] < t.num[v] {
        anchor(t, t.par[v] as int, cur)
    } else {
        v
    }
}

/// The start has number zero and is the only numbered vertex that is its own
/// parent.
pub proof fn lemma_start(adj: Seq<Seq<usize>>, s: usize, t: DfsTree)
    requires
        dfs_tree(adj, s, t),
    ensures
        t.seen[s as int],
        t.num[s as int] == 0,
        t.par[s as int] == s,
        forall|v: int| 0 <= v < adj.len() && t.seen[v] && v != s ==> #[trigger] t.par[v] != v,
        forall|v: int| 0 <= v < adj.len() && t.seen[v] && v != s ==> #[trigger] t.num[v] > 0,
{
    assert(t.order[0] == s);
    assert(t.num[t.order[0] as int] == 0);
    assert forall|v: int| 0 <= v < adj.len() && t.seen[v] && v != s implies #[trigger] t.num[v]
        > 0 by {
        assert(t.order[t.num[v] as int] == v);
    }
}

proof fn lemma_seen_reaches_top(adj: Seq<Seq<usize>>, s: usize, t: DfsTree, v: int) -> (k: nat)
    requires
        dfs_tree(adj, s, t),
        0 <= v < adj.len(),
        t.seen[v],
    ensures
        walk(t.par, v, k) == s,
    decreases t.num[v],
{
    if v == s {
        assert(walk(t.par, v, 0) == v);
        0
    } else {
        let q = t.par[v];
        let k = lemma_seen_reaches_top(adj, s, t, q as int);
        lemma_walk_step(t.par, v, k);
        k + 1
    }
}

/// The parent pointers of a depth-first spanning tree form a forest, and the
/// start is an ancestor of everything numbered.
pub proof fn lemma_par_forest(adj: Seq<Seq<usize>>, s: usize, t: DfsTree)
    requires
        dfs_tree(adj, s, t),
    ensures
        is_forest(t.par),
        forall|v: int| 0 <= v < adj.len() && t.seen[v] ==> #[trigger] ancestor(t.par, s as int, v),
{
    assert forall|v: int| 0 <= v < t.par.len() implies #[trigger] t.par[v] < t.par.len() by {
    }
    assert forall|v: int| 0 <= v < t.par.len() implies #[trigger] reaches_top(t.par, v) by {
        if t.seen[v] {
            let k = lemma_seen_reaches_top(adj, s, t, v);
            assert(is_top(t.par, walk(t.par, v, k)));
        } else {
            assert(t.par[v] == v);
            assert(is_top(t.par, walk(t.par, v, 0)));
        }
    }
    assert forall|v: int| 0 <= v < adj.len() && t.seen[v] implies #[trigger] ancestor(
        t.par,
        s as int,
        v,
    ) by {
        let k = lemma_seen_reaches_top(adj, s, t, v);
    }
}

/// Whatever is on the parent chain of a numbered vertex is numbered, has a
/// number that is no larger, and a subtree that ends no earlier.
pub proof fn lemma_anc_down(adj: Seq<Seq<usize>>, s: usize, t: DfsTree, x: int, k: nat)
    requires
        dfs_tree(adj, s, t),
        0 <= x < adj.len(),
        t.seen[x],
    ensures
        0 <= walk(t.par, x, k) < adj.len(),
        t.seen[walk(t.par, x, k)],
        t.num[walk(t.par, x, k)] <= t.num[x],
        t.end[x] <= t.end[walk(t.par, x, k)],
        walk(t.par, x, k) != x ==> t.num[walk(t.par, x, k)] < t.num[x],
    decreases k,
{
    if k > 0 {
        if x == s {
            lemma_top_fixed(t.par, x, k);
        } else {
            let q = t.par[x];
            lemma_walk_step(t.par, x, (k - 1) as nat);
            lemma_anc_down(adj, s, t, q as int, (k - 1) as nat);
        }
    }
}

/// A numbered vertex whose number falls into the subtree of `a` has `a` on
/// its parent chain.
pub proof fn lemma_anc_up(adj: Seq<Seq<usize>>, s: usize, t: DfsTree, a: int, x: int)
    requires
        dfs_tree(adj, s, t),
        0 <= a < adj.len(),
        0 <= x < adj.len(),
        t.seen[a],
        t.seen[x],
        t.num[a] <= t.num[x] < t.end[a],
    ensures
        ancestor(t.par, a, x),
    decreases t.num[x],
{
    if t.num[a] == t.num[x] {
        assert(t.order[t.num[a] as int] == a);
        assert(t.order[t.num[x] as int] == x);
        lemma_ancestor_self(t.par, x);
    } else {
        assert(before(t, a, x));
        lemma_start(adj, s, t);
        let q = t.par[x];
        lemma_anc_up(adj, s, t, a, q as int);
        lemma_ancestor_unfold(t.par, a, x);
    }
}

/// Among numbered vertices, `a` is an ancestor of `x` exactly when the number
/// of `x` lies in the subtree of `a`.
pub proof fn lemma_anc_iff(adj: Seq<Seq<usize>>, s: usize, t: DfsTree, a: int, x: int)
    requires
        dfs_tree(adj, s, t),
        0 <= x < adj.len(),
        t.seen[x],
    ensures
        ancestor(t.par, a, x) <==> (0 <= a < adj.len() && t.seen[a] && t.num[a] <= t.num[x]
            < t.end[a]),
        ancestor(t.par, a, x) ==> t.end[x] <= t.end[a],
        ancestor(t.par, a, x) && a != x ==> t.num[a] < t.num[x],
{
    if ancestor(t.par, a, x) {
        let k = choose|k: nat| #[trigger] walk(t.par, x, k) == a;
        lemma_anc_down(adj, s, t, x, k);
    }
    if 0 <= a < adj.len() && t.seen[a] && t.num[a] <= t.num[x] < t.end[a] {
        lemma_anc_up(adj, s, t, a, x);
    }
}

/// The anchor of a vertex is one of its ancestors; if the vertex is numbered,
/// so is the anchor, with a number of at most `cur` unless it is the start.
pub proof fn lemma_anchor(adj: Seq<Seq<usize>>, s: usize, t: DfsTree, v: int, cur: int)
    requires
        dfs_tree(adj, s, t),
        0 <= v < adj.len(),
        cur >= 0,
    ensures
        0 <= anchor(t, v, cur) < adj.len(),
        ancestor(t.par, anchor(t, v, cur), v),
        !t.seen[v] ==> anchor(t, v, cur) == v,
        t.seen[v] ==> t.seen[anchor(t, v, cur)] && t.num[anchor(t, v, cur)] <= cur,
        t.seen[v] && t.num[v] <= cur ==> anchor(t, v, cur) == v,
    decreases t.num[v],
{
    lemma_start(adj, s, t);
    if t.seen[v] && t.num[v] > cur {
        let q = t.par[v];
        lemma_anchor(adj, s, t, q as int, cur);
        lemma_ancestor_unfold(t.par, anchor(t, v, cur), v);
    } else {
        lemma_ancestor_self(t.par, v);
    }
}

/// What lies on the chain from `v` strictly below its anchor is numbered
/// above `cur`, and it is all of the ancestors of `v` that are.
pub proof fn lemma_anchor_between(adj: Seq<Seq<usize>>, s: usize, t: DfsTree, v: int, cur: int, x: int)
    requires
        dfs_tree(adj, s, t),
        0 <= v < adj.len(),
        t.seen[v],
        cur >= 0,
    ensures
        between(t.par, v, anchor(t, v, cur), x) <==> (ancestor(t.par, x, v) && 0 <= x < adj.len()
            && t.seen[x] && t.num[x] > cur),
    decreases t.num[v],
{
    lemma_start(adj, s, t);
    lemma_par_forest(adj, s, t);
    let r = anchor(t, v, cur);
    lemma_anchor(adj, s, t, v, cur);
    lemma_anc_iff(adj, s, t, x, v);
    if t.num[v] > cur {
        let q = t.par[v];
        lemma_anchor_between(adj, s, t, q as int, cur, x);
        lemma_ancestor_unfold(t.par, x, v);
        lemma_ancestor_self(t.par, v);
        lemma_anc_iff(adj, s, t, r, v);
        lemma_anc_iff(adj, s, t, r, q as int);
        if x == v {
            lemma_ancestor_unfold(t.par, r, v);
        }
    } else {
        if ancestor(t.par, x, v) && ancestor(t.par, v, x) {
            crate::util::forest::lemma_ancestor_antisym(t.par, x, v);
        }
        if ancestor(t.par, x, v) && t.seen[x] {
            assert(t.num[x] <= t.num[v]);
        }
    }
}

/// Lowering the bar from the number of `w` to one less moves the anchor of
/// what was anchored at `w` to the parent of `w`, and nothing else.
pub proof fn lemma_anchor_step(adj: Seq<Seq<usize>>, s: usize, t: DfsTree, w: int, x: int)
    requires
        dfs_tree(adj, s, t),
        0 <= w < adj.len(),
        0 <= x < adj.len(),
        t.seen[w],
        w != s,
    ensures
        anchor(t, x, t.num[w] - 1) == (if anchor(t, x, t.num[w] as int) == w {
            t.par[w] as int
        } else {
            anchor(t, x, t.num[w] as int)
        }),
    decreases t.num[x],
{
    lemma_start(adj, s, t);
    let i = t.num[w] as int;
    if t.seen[x] && t.num[x] > i {
        lemma_anchor_step(adj, s, t, w, t.par[x] as int);
    } else if t.seen[x] && t.num[x] == i {
        assert(t.order[t.num[x] as int] == x);
        assert(t.order[t.num[w] as int] == w);
        let q = t.par[w] as int;
        assert(t.num[q] < i);
        assert(anchor(t, q, i - 1) == q);
    } else {
        if t.seen[x] {
            assert(x != w);
        }
    }
}

/// By vertex: the anchor for the bar `cur`.
pub open spec fn anchors(t: DfsTree, cur: int) -> Seq<usize> {
    Seq::new(t.seen.len(), |v: int| anchor(t, v, cur) as usize)
}

/// `m` is the number of a proper ancestor of `v`.
pub open spec fn semi_above(t: DfsTree, v: int, m: int) -> bool {
    &&& 0 <= m < t.num[v]
    &&& ancestor(t.par, t.order[m] as int, v)
}

/// What holds of the semidominator number `m` of a processed vertex `v`: it
/// is the semidominator number, and that of a proper ancestor of `v`.
pub open spec fn semi_fact(adj: Seq<Seq<usize>>, t: DfsTree, v: int, m: int) -> bool {
    &&& semi_above(t, v, m)
    &&& is_semi(adj, t, v, m)
}

/// The semidominator array while vertices numbered above `i` have been
/// processed: an unnumbered vertex holds the invalid index, an unprocessed one
/// its own number, a processed one its semidominator number.
pub open spec fn semis_ok(adj: Seq<Seq<usize>>, t: DfsTree, sdom: Seq<usize>, i: int) -> bool {
    &&& sdom.len() == adj.len()
    &&& forall|v: int|
        0 <= v < adj.len() ==> if !t.seen[v] {
            #[trigger] sdom[v] == usize::MAX
        } else if t.num[v] <= i {
            sdom[v] == t.num[v]
        } else {
            semi_fact(adj, t, v, sdom[v] as int)
        }
}

/// `c` is a child of `p` and an ancestor of `v`.
pub open spec fn child_toward(t: DfsTree, p: int, v: int, c: int) -> bool {
    &&& 0 <= c < t.seen.len()
    &&& t.seen[c]
    &&& t.par[c] == p
    &&& c != p
    &&& ancestor(t.par, c, v)
}

/// `v` waits in the bucket of `p`.
pub open spec fn in_bucket(b: Seq<Seq<usize>>, p: int, v: int) -> bool {
    0 <= p < b.len() && exists|j: int| 0 <= j < b[p].len() && #[trigger] b[p][j] == v
}

/// What holds of a vertex `v` that waits in the bucket of `p`: it has been
/// processed, `p` is its semidominator, and the child of `p` on the way down
/// to `v` has not been processed, or only just.
pub open spec fn entry_ok(t: DfsTree, sdom: Seq<usize>, lo: int, hi: int, p: int, v: int) -> bool {
    &&& 0 <= v < t.seen.len()
    &&& t.seen[v]
    &&& t.num[v] > lo
    &&& sdom[v] < t.order.len()
    &&& t.order[sdom[v] as int] == p
    &&& exists|c: int| #[trigger] child_toward(t, p, v, c) && t.num[c] <= hi
}

/// The buckets while vertices numbered above `lo` have been processed: every
/// entry is as `entry_ok` says, and every processed vertex without a
/// provisional dominator waits in the bucket of its semidominator.
pub open spec fn buckets_ok(
    t: DfsTree,
    sdom: Seq<usize>,
    b: Seq<Seq<usize>>,
    done: Seq<bool>,
    lo: int,
    hi: int,
) -> bool {
    &&& b.len() == t.seen.len()
    &&& done.len() == t.seen.len()
    &&& forall|p: int, j: int|
        0 <= p < b.len() && 0 <= j < b[p].len() ==> entry_ok(
            t,
            sdom,
            lo,
            hi,
            p,
            (#[trigger] b[p][j]) as int,
        )
    &&& forall|v: int|
        0 <= v < t.seen.len() && t.seen[v] && t.num[v] > lo && !#[trigger] done[v] ==> in_bucket(
            b,
            t.order[sdom[v] as int] as int,
            v,
        )
}

/// `u` is the vertex by which the provisional dominator `d` of `v` was
/// chosen: it has the smallest semidominator number among the vertices
/// strictly between the semidominator of `v` and `v` on the tree, all of them
/// numbered above `lo`; `d` is `u` if that number is smaller than that of
/// `v`, and the semidominator of `v` otherwise.
pub open spec fn prov_witness(t: DfsTree, sdom: Seq<usize>, lo: int, v: int, d: int, u: int) -> bool {
    &&& between(t.par, v, t.order[sdom[v] as int] as int, u)
    &&& forall|x: int| #[trigger]
        between(t.par, v, t.order[sdom[v] as int] as int, x) ==> sdom[u] <= sdom[x] && t.num[x]
            > lo
    &&& d == (if sdom[u] < sdom[v] {
        u
    } else {
        t.order[sdom[v] as int] as int
    })
}

/// What holds of the provisional dominator `d` of `v`: it is numbered before
/// `v` and was chosen as `prov_witness` says.
pub open spec fn prov_fact(
    adj: Seq<Seq<usize>>,
    t: DfsTree,
    sdom: Seq<usize>,
    lo: int,
    v: int,
    d: int,
) -> bool {
    &&& 0 <= d < t.seen.len()
    &&& t.seen[d]
    &&& t.num[d] < t.num[v]
    &&& exists|u: int| #[trigger] prov_witness(t, sdom, lo, v, d, u)
}

/// What holds of the dominator `d` of `v` in the end: it is the immediate
/// dominator, numbered before `v`, and an ancestor of the semidominator.
pub open spec fn final_fact(
    adj: Seq<Seq<usize>>,
    s: usize,
    t: DfsTree,
    sdom: Seq<usize>,
    v: int,
    d: int,
) -> bool {
    &&& 0 <= d < t.seen.len()
    &&& t.seen[d]
    &&& t.num[d] < t.num[v]
    &&& is_idom(adj, s as int, d, v)
    &&& ancestor(t.par, d, t.order[sdom[v] as int] as int)
}

/// The dominator array while vertices numbered above `i` have been processed:
/// a vertex without provisional dominator holds itself.
pub open spec fn idoms_ok(
    adj: Seq<Seq<usize>>,
    t: DfsTree,
    sdom: Seq<usize>,
    idom: Seq<usize>,
    done: Seq<bool>,
    i: int,
) -> bool {
    &&& idom.len() == t.seen.len()
    &&& done.len() == t.seen.len()
    &&& forall|v: int|
        0 <= v < t.seen.len() ==> if #[trigger] done[v] {
            t.seen[v] && t.num[v] > i && prov_fact(adj, t, sdom, i, v, idom[v] as int)
        } else {
            idom[v] == v
        }
}

/// What the evaluation of a predecessor `v` of `w` contributes to the
/// semidominator of `w`: a smaller number is again that of a proper ancestor
/// of `w`, and a predecessor numbered before `w` contributes its own number.
pub proof fn lemma_candidate(
    adj: Seq<Seq<usize>>,
    radj: Seq<Seq<usize>>,
    s: usize,
    t: DfsTree,
    sdom0: Seq<usize>,
    mw: usize,
    w: int,
    e: int,
    u: int,
)
    requires
        dfs_tree(adj, s, t),
        mirrored(adj, radj),
        closed_adj(radj),
        0 <= w < adj.len(),
        t.seen[w],
        w != s,
        semis_ok(adj, t, sdom0, t.num[w] as int),
        mw <= t.num[w],
        0 <= e < radj[w].len(),
        0 <= u < adj.len(),
        anchor(t, radj[w][e] as int, t.num[w] as int) == radj[w][e] ==> u == radj[w][e],
        anchor(t, radj[w][e] as int, t.num[w] as int) != radj[w][e] ==> between(
            t.par,
            radj[w][e] as int,
            anchor(t, radj[w][e] as int, t.num[w] as int),
            u,
        ),
    ensures
        sdom0.update(w, mw)[u] < mw ==> semi_above(t, w, sdom0.update(w, mw)[u] as int),
        t.seen[radj[w][e] as int] && t.num[radj[w][e] as int] < t.num[w] ==> u == radj[w][e]
            && sdom0.update(w, mw)[u] == t.num[radj[w][e] as int],
{
    let v = radj[w][e] as int;
    let i = t.num[w] as int;
    let sdom = sdom0.update(w, mw);
    assert(has_edge(radj, w, v));
    assert(has_edge(adj, v, w));
    assert(0 <= v < adj.len());
    lemma_anchor(adj, s, t, v, i);
    lemma_start(adj, s, t);
    if t.seen[v] {
        let j = choose|j: int| 0 <= j < adj[v].len() && #[trigger] adj[v][j] == w;
        assert(t.num[adj[v][j] as int] < t.end[v]);
        if t.num[v] <= i {
            if v != w {
                assert(t.order[t.num[v] as int] == v);
                assert(t.order[t.num[w] as int] == w);
                assert(sdom[u] == t.num[v]);
                lemma_anc_up(adj, s, t, v, w);
            }
        } else {
            lemma_anchor_between(adj, s, t, v, i, u);
            assert(u != w);
            let m = sdom0[u] as int;
            let a = t.order[m] as int;
            if m < mw {
                lemma_anc_iff(adj, s, t, u, v);
                lemma_anc_iff(adj, s, t, a, u);
                lemma_anc_up(adj, s, t, a, w);
            }
        }
    } else {
        assert(sdom0[v] == usize::MAX);
    }
}

/// The parent of `w` is among its predecessors.
pub proof fn lemma_parent_is_pred(
    adj: Seq<Seq<usize>>,
    radj: Seq<Seq<usize>>,
    s: usize,
    t: DfsTree,
    w: int,
) -> (e: int)
    requires
        dfs_tree(adj, s, t),
        mirrored(adj, radj),
        0 <= w < adj.len(),
        t.seen[w],
        w != s,
    ensures
        0 <= e < radj[w].len(),
        radj[w][e] == t.par[w],
        t.seen[t.par[w] as int],
        t.num[t.par[w] as int] < t.num[w],
{
    let p = t.par[w] as int;
    assert(has_edge(adj, p, w));
    assert(has_edge(radj, w, p));
    choose|e: int| 0 <= e < radj[w].len() && #[trigger] radj[w][e] == p
}

/// Uniting `w` into its parent turns the anchors for the number of `w` into
/// those for one less.
pub proof fn lemma_after_link(adj: Seq<Seq<usize>>, s: usize, t: DfsTree, w: int)
    requires
        dfs_tree(adj, s, t),
        0 <= w < adj.len(),
        t.seen[w],
        w != s,
    ensures
        merged(anchors(t, t.num[w] as int), w, t.par[w] as int) == anchors(t, t.num[w] - 1),
{
    let i = t.num[w] as int;
    let p = t.par[w] as int;
    let a0 = anchors(t, i);
    let a1 = anchors(t, i - 1);
    let m = merged(a0, w, p);
    lemma_start(adj, s, t);
    lemma_anchor(adj, s, t, w, i);
    lemma_anchor(adj, s, t, p, i);
    assert forall|x: int| 0 <= x < a0.len() implies m[x] == a1[x] by {
        lemma_anchor_step(adj, s, t, w, x);
        lemma_anchor(adj, s, t, x, i);
        lemma_anchor(adj, s, t, x, i - 1);
    }
    assert(m =~= a1);
}

/// A vertex whose semidominator has just been found may wait in the bucket
/// of that semidominator.
pub proof fn lemma_new_entry(adj: Seq<Seq<usize>>, s: usize, t: DfsTree, sdom: Seq<usize>, w: int)
    requires
        dfs_tree(adj, s, t),
        0 <= w < adj.len(),
        t.seen[w],
        sdom.len() == adj.len(),
        semi_fact(adj, t, w, sdom[w] as int),
    ensures
        0 <= t.order[sdom[w] as int] < adj.len(),
        entry_ok(t, sdom, t.num[w] - 1, t.num[w] as int, t.order[sdom[w] as int] as int, w),
{
    let p = t.order[sdom[w] as int] as int;
    lemma_par_forest(adj, s, t);
    assert(t.num[t.order[sdom[w] as int] as int] == sdom[w]);
    let k = choose|k: nat| #[trigger] walk(t.par, w, k) == p;
    let c = lemma_child_toward(t.par, p, w, k);
    lemma_anc_iff(adj, s, t, c, w);
    assert(child_toward(t, p, w, c));
}

/// While the bucket of the parent `p` of the vertex `w` processed last is
/// emptied, each of its vertices is anchored at `p`, and what lies strictly
/// between has been processed.
pub proof fn lemma_drain_anchor(adj: Seq<Seq<usize>>, s: usize, t: DfsTree, sdom: Seq<usize>, w: int, v: int)
    requires
        dfs_tree(adj, s, t),
        0 <= w < adj.len(),
        t.seen[w],
        w != s,
        entry_ok(t, sdom, t.num[w] - 1, t.num[w] as int, t.par[w] as int, v),
    ensures
        anchor(t, v, t.num[w] - 1) == t.par[w],
        ancestor(t.par, w, v),
        t.num[t.par[w] as int] < t.num[v],
        v != t.par[w],
{
    let i = t.num[w] as int;
    let p = t.par[w] as int;
    lemma_start(adj, s, t);
    lemma_par_forest(adj, s, t);
    let c = choose|c: int| #[trigger] child_toward(t, p, v, c) && t.num[c] <= i;
    assert(t.seen[p] && t.num[p] < i);
    lemma_anc_iff(adj, s, t, c, v);
    if c != w {
        assert(t.order[t.num[c] as int] == c);
        assert(t.order[t.num[w] as int] == w);
        assert(t.num[c] < i);
        lemma_anc_up(adj, s, t, c, w);
        lemma_ancestor_unfold(t.par, c, w);
        lemma_ancestor_self(t.par, p);
        lemma_ancestor_unfold(t.par, p, c);
        assert(reaches_top(t.par, c));
        lemma_ancestor_antisym(t.par, c, p);
        assert(false);
    }
    let r = anchor(t, v, i - 1);
    lemma_anchor(adj, s, t, v, i - 1);
    lemma_anc_iff(adj, s, t, r, v);
    lemma_anc_iff(adj, s, t, w, v);
    lemma_ancestor_self(t.par, p);
    lemma_ancestor_unfold(t.par, p, w);
    lemma_ancestor_transitive(t.par, p, w, v);
    lemma_anc_iff(adj, s, t, p, v);
    lemma_anchor_between(adj, s, t, v, i - 1, p);
    if r != p {
        // both are ancestors of `w`, and neither lies above the other
        lemma_anc_up(adj, s, t, r, w);
        lemma_ancestor_unfold(t.par, r, w);
        lemma_anc_iff(adj, s, t, r, p);
        if t.num[r] <= t.num[p] {
            lemma_anc_up(adj, s, t, r, p);
        }
        assert(t.order[t.num[r] as int] == r);
        assert(t.order[t.num[p] as int] == p);
        assert(false);
    }
}

/// Once the start alone is left to process, no vertex waits in a bucket.
pub proof fn lemma_no_entry_left(adj: Seq<Seq<usize>>, s: usize, t: DfsTree, sdom: Seq<usize>, p: int, v: int)
    requires
        dfs_tree(adj, s, t),
    ensures
        !entry_ok(t, sdom, 0, 0, p, v),
{
    lemma_start(adj, s, t);
    if entry_ok(t, sdom, 0, 0, p, v) {
        let c = choose|c: int| #[trigger] child_toward(t, p, v, c) && t.num[c] <= 0;
        assert(t.order[t.num[c] as int] == c);
        assert(c == s);
    }
}

/// An array in which every vertex holds itself or a vertex numbered before
/// it is a forest.
pub proof fn lemma_decreasing_is_forest(t: DfsTree, idom: Seq<usize>)
    requires
        idom.len() == t.seen.len(),
        t.num.len() == t.seen.len(),
        forall|v: int|
            0 <= v < idom.len() ==> (#[trigger] idom[v]) < idom.len() && (idom[v] == v
                || t.num[idom[v] as int] < t.num[v]),
    ensures
        is_forest(idom),
{
    lemma_ranked_is_forest(idom, t.num);
}

/// Finding the semidominator of `w` leaves what was said of the buckets and
/// of the other semidominators as it was.
pub proof fn lemma_semi_frame(
    adj: Seq<Seq<usize>>,
    s: usize,
    t: DfsTree,
    sdom: Seq<usize>,
    b: Seq<Seq<usize>>,
    idom: Seq<usize>,
    done: Seq<bool>,
    w: int,
    m: usize,
)
    requires
        dfs_tree(adj, s, t),
        0 <= w < adj.len(),
        t.seen[w],
        semis_ok(adj, t, sdom, t.num[w] as int),
        buckets_ok(t, sdom, b, done, t.num[w] as int, t.num[w] as int),
        idoms_ok(adj, t, sdom, idom, done, t.num[w] as int),
        semi_fact(adj, t, w, m as int),
    ensures
        semis_ok(adj, t, sdom.update(w, m), t.num[w] - 1),
        buckets_ok(t, sdom.update(w, m), b, done, t.num[w] as int, t.num[w] as int),
        idoms_ok(adj, t, sdom.update(w, m), idom, done, t.num[w] - 1),
{
    let i = t.num[w] as int;
    let sdom2 = sdom.update(w, m);
    assert forall|v: int| 0 <= v < t.seen.len() implies if #[trigger] done[v] {
        t.seen[v] && t.num[v] > i - 1 && prov_fact(adj, t, sdom2, i - 1, v, idom[v] as int)
    } else {
        idom[v] == v
    } by {
        if done[v] {
            let d = idom[v] as int;
            assert(prov_fact(adj, t, sdom, i, v, d));
            let u = choose|u: int| #[trigger] prov_witness(t, sdom, i, v, d, u);
            assert(v != w);
            assert(between(t.par, v, t.order[sdom[v] as int] as int, u));
            assert(u != w);
            assert forall|x: int| #[trigger]
                between(t.par, v, t.order[sdom2[v] as int] as int, x) implies sdom2[u] <= sdom2[x]
                && t.num[x] > i - 1 by {
                assert(between(t.par, v, t.order[sdom[v] as int] as int, x));
                assert(x != w);
            }
            assert(prov_witness(t, sdom2, i - 1, v, d, u));
        }
    }
    assert forall|v: int| 0 <= v < adj.len() implies if !t.seen[v] {
        #[trigger] sdom2[v] == usize::MAX
    } else if t.num[v] <= i - 1 {
        sdom2[v] == t.num[v]
    } else {
        semi_fact(adj, t, v, sdom2[v] as int)
    } by {
        if v != w {
            assert(sdom2[v] == sdom[v]);
            if t.seen[v] {
                assert(t.order[t.num[v] as int] == v);
                assert(t.order[t.num[w] as int] == w);
            }
        }
    }
    assert forall|p: int, j: int| 0 <= p < b.len() && 0 <= j < b[p].len() implies entry_ok(
        t,
        sdom2,
        i,
        i,
        p,
        (#[trigger] b[p][j]) as int,
    ) by {
        let v = b[p][j] as int;
        assert(entry_ok(t, sdom, i, i, p, v));
        assert(v != w);
        let c = choose|c: int| #[trigger] child_toward(t, p, v, c) && t.num[c] <= i;
        assert(child_toward(t, p, v, c) && t.num[c] <= i);
    }
    assert forall|v: int|
        0 <= v < t.seen.len() && t.seen[v] && t.num[v] > i && !#[trigger] done[v] implies in_bucket(
        b,
        t.order[sdom2[v] as int] as int,
        v,
    ) by {
        assert(v != w);
    }
}

/// Putting `w`, whose semidominator has just been found, into the bucket of
/// that semidominator.
pub proof fn lemma_push_entry(
    adj: Seq<Seq<usize>>,
    s: usize,
    t: DfsTree,
    sdom: Seq<usize>,
    b: Seq<Seq<usize>>,
    done: Seq<bool>,
    w: int,
)
    requires
        dfs_tree(adj, s, t),
        0 <= w < adj.len(),
        t.seen[w],
        sdom.len() == adj.len(),
        semi_fact(adj, t, w, sdom[w] as int),
        buckets_ok(t, sdom, b, done, t.num[w] as int, t.num[w] as int),
    ensures
        0 <= t.order[sdom[w] as int] < adj.len(),
        buckets_ok(
            t,
            sdom,
            b.update(
                t.order[sdom[w] as int] as int,
                b[t.order[sdom[w] as int] as int].push(w as usize),
            ),
            done,
            t.num[w] - 1,
            t.num[w] as int,
        ),
{
    let i = t.num[w] as int;
    let q = t.order[sdom[w] as int] as int;
    lemma_new_entry(adj, s, t, sdom, w);
    let b2 = b.update(q, b[q].push(w as usize));
    assert forall|p: int, j: int| 0 <= p < b2.len() && 0 <= j < b2[p].len() implies entry_ok(
        t,
        sdom,
        i - 1,
        i,
        p,
        (#[trigger] b2[p][j]) as int,
    ) by {
        if p == q && j == b[q].len() {
        } else {
            assert(b2[p][j] == b[p][j]);
            let v = b[p][j] as int;
            assert(entry_ok(t, sdom, i, i, p, v));
            let c = choose|c: int| #[trigger] child_toward(t, p, v, c) && t.num[c] <= i;
            assert(child_toward(t, p, v, c) && t.num[c] <= i);
        }
    }
    assert forall|v: int|
        0 <= v < t.seen.len() && t.seen[v] && t.num[v] > i - 1 && !#[trigger] done[v] implies in_bucket(
        b2,
        t.order[sdom[v] as int] as int,
        v,
    ) by {
        if t.num[v] > i {
            let p = t.order[sdom[v] as int] as int;
            assert(in_bucket(b, p, v));
            let j = choose|j: int| 0 <= j < b[p].len() && #[trigger] b[p][j] == v;
            assert(b2[p][j] == v);
        } else {
            assert(t.order[t.num[v] as int] == v);
            assert(t.order[t.num[w] as int] == w);
            assert(v == w);
            assert(b2[q][b[q].len() as int] == w);
        }
    }
}

/// Taking the last vertex `v` out of the bucket of `p` and giving it the
/// provisional dominator `d`.
pub proof fn lemma_resolve(
    adj: Seq<Seq<usize>>,
    t: DfsTree,
    sdom: Seq<usize>,
    b: Seq<Seq<usize>>,
    idom: Seq<usize>,
    done: Seq<bool>,
    lo: int,
    hi: int,
    p: int,
    d: usize,
)
    requires
        buckets_ok(t, sdom, b, done, lo, hi),
        idoms_ok(adj, t, sdom, idom, done, lo),
        0 <= p < b.len(),
        b[p].len() > 0,
        prov_fact(adj, t, sdom, lo, b[p].last() as int, d as int),
    ensures
        buckets_ok(t, sdom, b.update(p, b[p].drop_last()), done.update(b[p].last() as int, true), lo, hi),
        idoms_ok(
            adj,
            t,
            sdom,
            idom.update(b[p].last() as int, d),
            done.update(b[p].last() as int, true),
            lo,
        ),
{
    let v = b[p].last() as int;
    let b2 = b.update(p, b[p].drop_last());
    let done2 = done.update(v, true);
    let idom2 = idom.update(v, d);
    let last = b[p].len() - 1;
    assert(b[p][last] == v);
    assert(entry_ok(t, sdom, lo, hi, p, v));
    assert forall|q: int, j: int| 0 <= q < b2.len() && 0 <= j < b2[q].len() implies entry_ok(
        t,
        sdom,
        lo,
        hi,
        q,
        (#[trigger] b2[q][j]) as int,
    ) by {
        assert(b2[q][j] == b[q][j]);
    }
    assert forall|x: int|
        0 <= x < t.seen.len() && t.seen[x] && t.num[x] > lo && !#[trigger] done2[x] implies in_bucket(
        b2,
        t.order[sdom[x] as int] as int,
        x,
    ) by {
        assert(!done[x]);
        let q = t.order[sdom[x] as int] as int;
        assert(in_bucket(b, q, x));
        let j = choose|j: int| 0 <= j < b[q].len() && #[trigger] b[q][j] == x;
        assert(b2[q][j] == x);
    }
    assert forall|x: int| 0 <= x < t.seen.len() implies if #[trigger] done2[x] {
        t.seen[x] && t.num[x] > lo && prov_fact(adj, t, sdom, lo, x, idom2[x] as int)
    } else {
        idom2[x] == x
    } by {
        if x != v {
            assert(done[x] == done2[x]);
        }
    }
}

/// Once the bucket of the parent of `w` is empty, the child on the way down
/// to any vertex that still waits is yet to be processed.
pub proof fn lemma_after_drain(
    adj: Seq<Seq<usize>>,
    s: usize,
    t: DfsTree,
    sdom: Seq<usize>,
    b: Seq<Seq<usize>>,
    done: Seq<bool>,
    w: int,
)
    requires
        dfs_tree(adj, s, t),
        0 <= w < adj.len(),
        t.seen[w],
        buckets_ok(t, sdom, b, done, t.num[w] - 1, t.num[w] as int),
        b[t.par[w] as int].len() == 0,
    ensures
        buckets_ok(t, sdom, b, done, t.num[w] - 1, t.num[w] - 1),
{
    let i = t.num[w] as int;
    assert forall|p: int, j: int| 0 <= p < b.len() && 0 <= j < b[p].len() implies entry_ok(
        t,
        sdom,
        i - 1,
        i - 1,
        p,
        (#[trigger] b[p][j]) as int,
    ) by {
        let v = b[p][j] as int;
        assert(entry_ok(t, sdom, i - 1, i, p, v));
        let c = choose|c: int| #[trigger] child_toward(t, p, v, c) && t.num[c] <= i;
        assert(t.order[t.num[c] as int] == c);
        assert(t.order[t.num[w] as int] == w);
        assert(c != w);
        assert(child_toward(t, p, v, c) && t.num[c] <= i - 1);
    }
}

/// The dominator array while the deferred entries are closed in the order of
/// the numbers: a numbered vertex other than the start holds its immediate
/// dominator if its number is below `i`, and its provisional dominator
/// otherwise; every other vertex holds itself.
pub open spec fn resolved_ok(
    adj: Seq<Seq<usize>>,
    s: usize,
    t: DfsTree,
    sdom: Seq<usize>,
    idom: Seq<usize>,
    i: int,
) -> bool {
    &&& idom.len() == t.seen.len()
    &&& forall|v: int|
        0 <= v < t.seen.len() ==> if t.seen[v] && v != s {
            if t.num[v] < i {
                final_fact(adj, s, t, sdom, v, (#[trigger] idom[v]) as int)
            } else {
                prov_fact(adj, t, sdom, 0, v, idom[v] as int)
            }
        } else {
            idom[v] == v
        }
}

/// When the start alone is left to process, every other numbered vertex has
/// its provisional dominator.
pub proof fn lemma_all_resolved(
    adj: Seq<Seq<usize>>,
    s: usize,
    t: DfsTree,
    sdom: Seq<usize>,
    b: Seq<Seq<usize>>,
    idom: Seq<usize>,
    done: Seq<bool>,
)
    requires
        dfs_tree(adj, s, t),
        buckets_ok(t, sdom, b, done, 0, 0),
        idoms_ok(adj, t, sdom, idom, done, 0),
    ensures
        resolved_ok(adj, s, t, sdom, idom, 1),
{
    lemma_start(adj, s, t);
    assert forall|v: int| 0 <= v < t.seen.len() implies if t.seen[v] && v != s {
        if t.num[v] < 1 {
            final_fact(adj, s, t, sdom, v, (#[trigger] idom[v]) as int)
        } else {
            prov_fact(adj, t, sdom, 0, v, idom[v] as int)
        }
    } else {
        idom[v] == v
    } by {
        if t.seen[v] && v != s {
            if !done[v] {
                let p = t.order[sdom[v] as int] as int;
                assert(in_bucket(b, p, v));
                let j = choose|j: int| 0 <= j < b[p].len() && #[trigger] b[p][j] == v;
                lemma_no_entry_left(adj, s, t, sdom, p, b[p][j] as int);
            }
        } else {
            assert(!done[v]);
        }
    }
}

/// A dominator array as `resolved_ok` describes it is a forest.
pub proof fn lemma_resolved_forest(
    adj: Seq<Seq<usize>>,
    s: usize,
    t: DfsTree,
    sdom: Seq<usize>,
    idom: Seq<usize>,
    i: int,
)
    requires
        dfs_tree(adj, s, t),
        resolved_ok(adj, s, t, sdom, idom, i),
    ensures
        is_forest(idom),
{
    assert forall|v: int| 0 <= v < idom.len() implies (#[trigger] idom[v]) < idom.len() && (idom[v]
        == v || t.num[idom[v] as int] < t.num[v]) by {}
    lemma_decreasing_is_forest(t, idom);
}

/// Once every numbered vertex but the start has been processed, the array
/// holds the semidominator numbers.
pub proof fn lemma_semis_final(adj: Seq<Seq<usize>>, s: usize, t: DfsTree, sdom: Seq<usize>)
    requires
        dfs_tree(adj, s, t),
        semis_ok(adj, t, sdom, 0),
    ensures
        semis_final(adj, s, t, sdom),
{
    lemma_start(adj, s, t);
    assert forall|v: int| 0 <= v < adj.len() && t.seen[v] && v != s implies (#[trigger] sdom[v])
        < t.num[v] && ancestor(t.par, t.order[sdom[v] as int] as int, v) && is_semi(
        adj,
        t,
        v,
        sdom[v] as int,
    ) by {
        assert(t.num[v] > 0);
        assert(semi_fact(adj, t, v, sdom[v] as int));
    }
}

/// The provisional dominator of a vertex that waits in the bucket of the
/// parent `p` of the vertex `w` processed last, chosen by the vertex `u` with
/// the smallest semidominator number strictly between `p` and the vertex.
pub proof fn lemma_drain_prov(
    adj: Seq<Seq<usize>>,
    s: usize,
    t: DfsTree,
    sdom: Seq<usize>,
    w: int,
    v: int,
    u: int,
    d: int,
)
    requires
        dfs_tree(adj, s, t),
        0 <= w < adj.len(),
        t.seen[w],
        w != s,
        sdom.len() == adj.len(),
        entry_ok(t, sdom, t.num[w] - 1, t.num[w] as int, t.par[w] as int, v),
        between(t.par, v, t.par[w] as int, u),
        forall|x: int| #[trigger] between(t.par, v, t.par[w] as int, x) ==> sdom[u] <= sdom[x],
        d == (if sdom[u] < sdom[v] {
            u
        } else {
            t.par[w] as int
        }),
    ensures
        prov_fact(adj, t, sdom, t.num[w] - 1, v, d),
{
    let i = t.num[w] as int;
    let p = t.par[w] as int;
    lemma_start(adj, s, t);
    lemma_drain_anchor(adj, s, t, sdom, w, v);
    lemma_anc_iff(adj, s, t, u, v);
    assert forall|x: int| #[trigger] between(t.par, v, t.order[sdom[v] as int] as int, x) implies sdom[u]
        <= sdom[x] && t.num[x] > i - 1 by {
        lemma_anchor_between(adj, s, t, v, i - 1, x);
    }
    assert(prov_witness(t, sdom, i - 1, v, d, u));
}

/// Closing the entry of `w`, the vertex with the smallest number whose entry
/// is still provisional: if it holds the semidominator of `w`, that is the
/// immediate dominator; if not, the immediate dominator is that of the vertex
/// it holds.
pub proof fn lemma_resolve_step(
    adj: Seq<Seq<usize>>,
    s: usize,
    t: DfsTree,
    sdom: Seq<usize>,
    idom: Seq<usize>,
    w: int,
)
    requires
        dfs_tree(adj, s, t),
        semis_ok(adj, t, sdom, 0),
        0 <= w < adj.len(),
        t.seen[w],
        w != s,
        resolved_ok(adj, s, t, sdom, idom, t.num[w] as int),
    ensures
        0 <= idom[w] < adj.len(),
        resolved_ok(
            adj,
            s,
            t,
            sdom,
            idom.update(
                w,
                if idom[w] != t.order[sdom[w] as int] {
                    idom[idom[w] as int]
                } else {
                    idom[w]
                },
            ),
            t.num[w] as int + 1,
        ),
{
    let i = t.num[w] as int;
    let a = t.order[sdom[w] as int] as int;
    let d = idom[w] as int;
    let d2 = if idom[w] != t.order[sdom[w] as int] {
        idom[idom[w] as int]
    } else {
        idom[w]
    };
    let idom2 = idom.update(w, d2);
    lemma_start(adj, s, t);
    lemma_par_forest(adj, s, t);
    lemma_semis_final(adj, s, t, sdom);
    assert(prov_fact(adj, t, sdom, 0, w, d));
    let u = choose|u: int| #[trigger] prov_witness(t, sdom, 0, w, d, u);
    assert(between(t.par, w, a, u));
    lemma_anc_iff(adj, s, t, u, w);
    assert(final_fact(adj, s, t, sdom, w, d2 as int)) by {
        if d == a {
            assert forall|x: int| #[trigger] between(t.par, w, a, x) implies sdom[x] >= sdom[w] by {}
            lemma_idom_direct(adj, s, t, sdom, w);
            lemma_ancestor_self(t.par, a);
        } else {
            assert(d == u);
            lemma_anc_iff(adj, s, t, a, u);
            assert(u != s);
            assert(t.num[u] < i);
            assert(final_fact(adj, s, t, sdom, u, idom[u] as int));
            lemma_idom_deferred(adj, s, t, sdom, w, u, idom[u] as int);
        }
    }
    assert forall|v: int| 0 <= v < t.seen.len() implies if t.seen[v] && v != s {
        if t.num[v] < i + 1 {
            final_fact(adj, s, t, sdom, v, (#[trigger] idom2[v]) as int)
        } else {
            prov_fact(adj, t, sdom, 0, v, idom2[v] as int)
        }
    } else {
        idom2[v] == v
    } by {
        if v != w {
            assert(idom2[v] == idom[v]);
            if t.seen[v] && v != s && t.num[v] == i {
                lemma_same_num(adj, s, t, v, w);
            }
        }
    }
}

/// Once every entry is closed, every numbered vertex but the start holds its
/// immediate dominator.
pub proof fn lemma_final_idoms(adj: Seq<Seq<usize>>, s: usize, t: DfsTree, sdom: Seq<usize>, idom: Seq<usize>, v: int)
    requires
        dfs_tree(adj, s, t),
        resolved_ok(adj, s, t, sdom, idom, t.order.len() as int),
        0 <= v < adj.len(),
        t.seen[v],
        v != s,
    ensures
        is_idom(adj, s as int, idom[v] as int, v),
        t.seen[idom[v] as int],
        idom[v] != v,
{
    assert(final_fact(adj, s, t, sdom, v, idom[v] as int));
}

/// `v` is among the first `e` vertices of `list`.
pub open spec fn via_pred(list: Seq<usize>, e: int, v: int) -> bool {
    exists|j: int| 0 <= j < e && j < list.len() && #[trigger] list[j] == v
}

/// Position `m` of `p` holds an ancestor of `v`.
pub open spec fn anc_at(t: DfsTree, p: Seq<int>, v: int, m: int) -> bool {
    0 <= m < p.len() && ancestor(t.par, p[m], v)
}

/// What holds of the candidate `m` for the semidominator number of `w` once
/// the first `e` predecessors of `w` have been evaluated: unless it is still
/// the number of `w`, it is the number of a proper ancestor from which a
/// path as the definition asks leads to `w`; it is no larger than the number
/// of any predecessor evaluated that is numbered before `w`; and no such path
/// that enters `w` from a predecessor evaluated starts at a smaller number.
pub open spec fn semi_partial(
    adj: Seq<Seq<usize>>,
    radj: Seq<Seq<usize>>,
    t: DfsTree,
    w: int,
    e: int,
    m: int,
) -> bool {
    &&& 0 <= m <= t.num[w]
    &&& m < t.num[w] ==> semi_above(t, w, m) && exists|p: Seq<int>| #[trigger]
        sd_path(adj, t, p, w) && p[0] == t.order[m]
    &&& forall|j: int|
        0 <= j < e && j < radj[w].len() && t.seen[(#[trigger] radj[w][j]) as int]
            && t.num[radj[w][j] as int] < t.num[w] ==> m <= t.num[radj[w][j] as int]
    &&& forall|p: Seq<int>| #[trigger]
        sd_path(adj, t, p, w) && via_pred(radj[w], e, p[p.len() - 2]) ==> m <= t.num[p[0]]
}

/// On a path from a numbered vertex, before the first position after the
/// beginning that holds an ancestor of `v`, every vertex is numbered above
/// the one at that position.
proof fn lemma_sd_gap(adj: Seq<Seq<usize>>, s: usize, t: DfsTree, p: Seq<int>, v: int, j: int, m: int)
    requires
        dfs_tree(adj, s, t),
        is_path(adj, p),
        t.seen[p[0]],
        0 <= v < adj.len(),
        t.seen[v],
        0 < m < j < p.len(),
        forall|l: int| 0 < l < j ==> !#[trigger] anc_at(t, p, v, l),
        anc_at(t, p, v, j),
    ensures
        t.num[p[m]] > t.num[p[j]],
{
    let y = p[j];
    lemma_path_seen(adj, s, t, p, j);
    lemma_path_seen(adj, s, t, p, m);
    if t.num[p[m]] <= t.num[y] {
        assert(!anc_at(t, p, v, m));
        if t.num[p[m]] == t.num[y] {
            lemma_same_num(adj, s, t, p[m], y);
        }
        let q = p.subrange(m, j + 1);
        lemma_path_part(adj, p, m, j);
        let l0 = lemma_path_low_ancestor(adj, s, t, q);
        let l = m + l0;
        let a = p[l];
        assert(q[l0] == a);
        assert(q.last() == y);
        assert(q[0] == p[m]);
        assert(l != j);
        lemma_ancestor_transitive(t.par, a, y, v);
        assert(anc_at(t, p, v, l));
        assert(false);
    }
}

/// A path that makes a number a candidate for the semidominator of `u`,
/// followed by a path from `u` that stays above the number of `w` and then
/// by an edge into `w`, does the same for `w`.
proof fn lemma_sd_extend(
    adj: Seq<Seq<usize>>,
    t: DfsTree,
    q: Seq<int>,
    r: Seq<int>,
    u: int,
    v: int,
    w: int,
)
    requires
        sd_path(adj, t, q, u),
        connects(adj, r, u, v),
        forall|i: int| 0 <= i < r.len() ==> t.num[#[trigger] r[i]] > t.num[w],
        has_edge(adj, v, w),
    ensures
        sd_path(adj, t, (q + r.skip(1)).push(w), w),
        (q + r.skip(1)).push(w)[0] == q[0],
{
    lemma_path_join(adj, q, r);
    let mid = q + r.skip(1);
    lemma_path_push(adj, mid, w);
    let big = mid.push(w);
    assert(r[0] == u);
    assert forall|i: int| 0 < i < big.len() - 1 implies t.num[#[trigger] big[i]] > t.num[w] by {
        assert(big[i] == mid[i]);
        if i < q.len() - 1 {
            assert(mid[i] == q[i]);
            assert(t.num[q[i]] > t.num[u]);
        } else if i == q.len() - 1 {
            assert(mid[i] == q[i]);
        } else {
            assert(mid[i] == r[i - q.len() + 1]);
        }
    }
}

/// If evaluating the predecessor `v` of `w` gives a smaller candidate, a path
/// as the definition of the semidominator asks leads from the vertex with
/// that number to `w`.
proof fn lemma_candidate_path(
    adj: Seq<Seq<usize>>,
    radj: Seq<Seq<usize>>,
    s: usize,
    t: DfsTree,
    sdom0: Seq<usize>,
    sdom: Seq<usize>,
    w: int,
    e: int,
    u: int,
) -> (p: Seq<int>)
    requires
        dfs_tree(adj, s, t),
        mirrored(adj, radj),
        closed_adj(radj),
        0 <= w < adj.len(),
        t.seen[w],
        w != s,
        semis_ok(adj, t, sdom0, t.num[w] as int),
        sdom == sdom0.update(w, sdom[w]),
        sdom[w] <= t.num[w],
        0 <= e < radj[w].len(),
        0 <= u < adj.len(),
        anchor(t, radj[w][e] as int, t.num[w] as int) == radj[w][e] ==> u == radj[w][e],
        anchor(t, radj[w][e] as int, t.num[w] as int) != radj[w][e] ==> between(
            t.par,
            radj[w][e] as int,
            anchor(t, radj[w][e] as int, t.num[w] as int),
            u,
        ),
        sdom[u] < sdom[w],
    ensures
        sd_path(adj, t, p, w),
        p[0] == t.order[sdom[u] as int],
{
    let v = radj[w][e] as int;
    let i = t.num[w] as int;
    assert(has_edge(radj, w, v));
    assert(has_edge(adj, v, w));
    assert(0 <= v < adj.len());
    lemma_anchor(adj, s, t, v, i);
    lemma_start(adj, s, t);
    if !t.seen[v] {
        assert(sdom0[v] == usize::MAX);
        assert(false);
        Seq::empty()
    } else if t.num[v] <= i {
        assert(v != w);
        assert(t.order[t.num[v] as int] == v);
        let p = seq![v, w];
        assert(p[0] == v && p[1] == w);
        assert forall|l: int| 0 <= l < p.len() - 1 implies #[trigger] edge_at(adj, p, l) by {}
        p
    } else {
        lemma_anchor_between(adj, s, t, v, i, u);
        lemma_same_num(adj, s, t, u, u);
        assert(u != w);
        assert(semi_fact(adj, t, u, sdom0[u] as int));
        let q = choose|q: Seq<int>| #[trigger]
            sd_path(adj, t, q, u) && q[0] == t.order[sdom0[u] as int];
        let r = lemma_tree_path_between(adj, s, t, u, v);
        assert forall|l: int| 0 <= l < r.len() implies t.num[#[trigger] r[l]] > t.num[w] by {
            lemma_anc_iff(adj, s, t, r[l], v);
            lemma_anc_iff(adj, s, t, u, r[l]);
        }
        lemma_sd_extend(adj, t, q, r, u, v, w);
        (q + r.skip(1)).push(w)
    }
}

/// No path as the definition of the semidominator asks that enters `w` from
/// its predecessor `v` starts at a number below both the candidate so far and
/// what evaluating `v` gives.
proof fn lemma_candidate_bound(
    adj: Seq<Seq<usize>>,
    radj: Seq<Seq<usize>>,
    s: usize,
    t: DfsTree,
    sdom0: Seq<usize>,
    sdom: Seq<usize>,
    w: int,
    e: int,
    u: int,
    p: Seq<int>,
)
    requires
        dfs_tree(adj, s, t),
        mirrored(adj, radj),
        closed_adj(radj),
        0 <= w < adj.len(),
        t.seen[w],
        w != s,
        semis_ok(adj, t, sdom0, t.num[w] as int),
        sdom == sdom0.update(w, sdom[w]),
        sdom[w] <= t.num[w],
        0 <= e < radj[w].len(),
        0 <= u < adj.len(),
        anchor(t, radj[w][e] as int, t.num[w] as int) == radj[w][e] ==> u == radj[w][e],
        anchor(t, radj[w][e] as int, t.num[w] as int) != radj[w][e] ==> between(
            t.par,
            radj[w][e] as int,
            anchor(t, radj[w][e] as int, t.num[w] as int),
            u,
        ) && forall|x: int| #[trigger]
            between(t.par, radj[w][e] as int, anchor(t, radj[w][e] as int, t.num[w] as int), x)
                ==> sdom[u] <= sdom[x],
        sd_path(adj, t, p, w),
        p[p.len() - 2] == radj[w][e],
    ensures
        sdom[u] <= t.num[p[0]] || sdom[w] <= t.num[p[0]],
{
    let v = radj[w][e] as int;
    let i = t.num[w] as int;
    let len = p.len() as int;
    assert(0 <= v < adj.len());
    lemma_start(adj, s, t);
    lemma_par_forest(adj, s, t);
    lemma_anchor(adj, s, t, v, i);
    lemma_path_seen(adj, s, t, p, len - 2);
    let r = anchor(t, v, i);
    if len == 2 {
        if t.num[v] <= i {
            if v != w {
                lemma_same_num(adj, s, t, v, v);
                assert(sdom[u] == t.num[v]);
            }
        } else {
            lemma_ancestor_self(t.par, v);
            lemma_anchor_between(adj, s, t, v, i, v);
            assert(between(t.par, v, r, v));
            assert(semi_fact(adj, t, v, sdom0[v] as int));
        }
    } else {
        assert(t.num[p[len - 2]] > t.num[w]);
        let g = |m: int| anc_at(t, p, v, m);
        lemma_ancestor_self(t.par, v);
        assert(g(len - 2));
        let j = lemma_first_sat(g, 0, len - 2);
        let y = p[j];
        assert(anc_at(t, p, v, j));
        assert forall|l: int| 0 < l < j implies !#[trigger] anc_at(t, p, v, l) by {
            assert(!g(l));
        }
        lemma_path_seen(adj, s, t, p, j);
        assert(t.num[p[j]] > t.num[w]);
        lemma_anchor_between(adj, s, t, v, i, y);
        assert(between(t.par, v, r, y));
        assert(y != w);
        assert(semi_fact(adj, t, y, sdom0[y] as int));
        let q = p.subrange(0, j + 1);
        lemma_path_part(adj, p, 0, j);
        assert forall|m: int| 0 < m < q.len() - 1 implies t.num[#[trigger] q[m]] > t.num[y] by {
            assert(q[m] == p[m]);
            lemma_sd_gap(adj, s, t, p, v, j, m);
        }
        assert(sd_path(adj, t, q, y));
        assert(q[0] == p[0]);
    }
}

/// Nothing has been evaluated yet: the candidate is the number of `w`.
pub proof fn lemma_semi_init(adj: Seq<Seq<usize>>, radj: Seq<Seq<usize>>, t: DfsTree, w: int)
    ensures
        semi_partial(adj, radj, t, w, 0, t.num[w] as int),
{
}

/// Evaluating one more predecessor of `w` and keeping the smaller number.
pub proof fn lemma_semi_step(
    adj: Seq<Seq<usize>>,
    radj: Seq<Seq<usize>>,
    s: usize,
    t: DfsTree,
    sdom0: Seq<usize>,
    sdom: Seq<usize>,
    w: int,
    e: int,
    u: int,
)
    requires
        dfs_tree(adj, s, t),
        mirrored(adj, radj),
        closed_adj(radj),
        0 <= w < adj.len(),
        t.seen[w],
        w != s,
        semis_ok(adj, t, sdom0, t.num[w] as int),
        sdom == sdom0.update(w, sdom[w]),
        0 <= e < radj[w].len(),
        0 <= u < adj.len(),
        semi_partial(adj, radj, t, w, e, sdom[w] as int),
        anchor(t, radj[w][e] as int, t.num[w] as int) == radj[w][e] ==> u == radj[w][e],
        anchor(t, radj[w][e] as int, t.num[w] as int) != radj[w][e] ==> between(
            t.par,
            radj[w][e] as int,
            anchor(t, radj[w][e] as int, t.num[w] as int),
            u,
        ) && forall|x: int| #[trigger]
            between(t.par, radj[w][e] as int, anchor(t, radj[w][e] as int, t.num[w] as int), x)
                ==> sdom[u] <= sdom[x],
    ensures
        semi_partial(
            adj,
            radj,
            t,
            w,
            e + 1,
            if sdom[u] < sdom[w] {
                sdom[u] as int
            } else {
                sdom[w] as int
            },
        ),
{
    let mw = sdom[w];
    let c = sdom[u];
    let m2 = if c < mw {
        c as int
    } else {
        mw as int
    };
    let v = radj[w][e] as int;
    lemma_candidate(adj, radj, s, t, sdom0, mw, w, e, u);
    if c < mw {
        let p = lemma_candidate_path(adj, radj, s, t, sdom0, sdom, w, e, u);
        assert(sd_path(adj, t, p, w) && p[0] == t.order[m2]);
    }
    assert forall|p: Seq<int>| #[trigger]
        sd_path(adj, t, p, w) && via_pred(radj[w], e + 1, p[p.len() - 2]) implies m2 <= t.num[p[0]] by {
        let j = choose|j: int| 0 <= j < e + 1 && j < radj[w].len() && #[trigger] radj[w][j] == p[p.len()
            - 2];
        if j < e {
            assert(via_pred(radj[w], e, p[p.len() - 2]));
        } else {
            lemma_candidate_bound(adj, radj, s, t, sdom0, sdom, w, e, u, p);
        }
    }
}

/// Once every predecessor of `w` has been evaluated, the candidate is the
/// semidominator number of `w`.
pub proof fn lemma_semi_done(
    adj: Seq<Seq<usize>>,
    radj: Seq<Seq<usize>>,
    s: usize,
    t: DfsTree,
    w: int,
    m: int,
)
    requires
        dfs_tree(adj, s, t),
        mirrored(adj, radj),
        0 <= w < adj.len(),
        t.seen[w],
        w != s,
        semi_partial(adj, radj, t, w, radj[w].len() as int, m),
    ensures
        semi_fact(adj, t, w, m),
{
    let e = lemma_parent_is_pred(adj, radj, s, t, w);
    assert(t.seen[radj[w][e] as int]);
    assert(m < t.num[w]);
    assert forall|p: Seq<int>| #[trigger] sd_path(adj, t, p, w) implies m <= t.num[p[0]] by {
        let l = p.len() - 2;
        assert(edge_at(adj, p, l));
        assert(has_edge(adj, p[l], w));
        assert(has_edge(radj, w, p[l]));
        let j = choose|j: int| 0 <= j < radj[w].len() && #[trigger] radj[w][j] == p[l];
        assert(via_pred(radj[w], radj[w].len() as int, p[l]));
    }
}

} // verus!
