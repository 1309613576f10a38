//! Semidominators and immediate dominators over a depth-first spanning tree:
//! what they are, and why the two rules by which the dominator computation
//! derives an immediate dominator from semidominators are right.

use crate::util::dfs::{dfs_tree, DfsTree};
use crate::util::domtree::{between, lemma_anc_iff, lemma_anc_up, lemma_par_forest, lemma_start};
use crate::util::forest::{
    ancestor, is_forest, is_top, lemma_ancestor_self, lemma_ancestor_transitive,
    lemma_ancestor_unfold, lemma_top_fixed, lemma_walk_step, reaches_top, walk,
};
use crate::util::paths::{
    closed_adj, connects, dominates_in, edge_at, is_path, lemma_path_join, lemma_path_part,
    lemma_path_push, reachable,
};
use vstd::prelude::*;

verus! {

/// `p` is a path of at least one edge that ends at `w`, starts at a numbered
/// vertex, and in between touches only vertices numbered above `w`.
pub open spec fn sd_path(adj: Seq<Seq<usize>>, t: DfsTree, p: Seq<int>, w: int) -> bool {
    &&& is_path(adj, p)
    &&& p.len() >= 2
    &&& p.last() == w
    &&& t.seen[p[0]]
    &&& forall|i: int| 0 < i < p.len() - 1 ==> t.num[#[trigger] p[i]] > t.num[w]
}

/// `m` is the semidominator number of `w`: the smallest number from which
/// such a path leads to `w`.
pub open spec fn is_semi(adj: Seq<Seq<usize>>, t: DfsTree, w: int, m: int) -> bool {
    &&& 0 <= m < t.order.len()
    &&& exists|p: Seq<int>| #[trigger] sd_path(adj, t, p, w) && p[0] == t.order[m]
    &&& forall|p: Seq<int>| #[trigger] sd_path(adj, t, p, w) ==> m <= t.num[p[0]]
}

/// `d` is the immediate dominator of `v`: another vertex that lies on every
/// path from `s` to `v`, and on which every other such vertex lies too, on
/// every path from `s` to `d`.
pub open spec fn is_idom(adj: Seq<Seq<usize>>, s: int, d: int, v: int) -> bool {
    &&& d != v
    &&& dominates_in(adj, s, d, v)
    &&& forall|x: int| x != v && #[trigger] dominates_in(adj, s, x, v) ==> dominates_in(adj, s, x, d)
}

/// By vertex, for every numbered vertex but the start: `sd` holds the
/// semidominator number, which is that of a proper ancestor.
pub open spec fn semis_final(adj: Seq<Seq<usize>>, s: usize, t: DfsTree, sd: Seq<usize>) -> bool {
    &&& sd.len() == adj.len()
    &&& forall|v: int|
        0 <= v < adj.len() && t.seen[v] && v != s ==> (#[trigger] sd[v]) < t.num[v] && ancestor(
            t.par,
            t.order[sd[v] as int] as int,
            v,
        ) && is_semi(adj, t, v, sd[v] as int)
}

/// The largest position up to `hi` at which `f` holds, given that it holds
/// at position zero.
pub proof fn lemma_last_sat(f: spec_fn(int) -> bool, hi: int) -> (i: int)
    requires
        0 <= hi,
        f(0),
    ensures
        0 <= i <= hi,
        f(i),
        forall|m: int| i < m <= hi ==> !#[trigger] f(m),
    decreases hi,
{
    if f(hi) {
        hi
    } else {
        lemma_last_sat(f, hi - 1)
    }
}

/// The smallest position after `lo` at which `f` holds, given that it holds
/// at `hi`.
pub proof fn lemma_first_sat(f: spec_fn(int) -> bool, lo: int, hi: int) -> (j: int)
    requires
        lo < hi,
        f(hi),
    ensures
        lo < j <= hi,
        f(j),
        forall|m: int| lo < m < j ==> !#[trigger] f(m),
    decreases hi - lo,
{
    if f(lo + 1) {
        lo + 1
    } else {
        lemma_first_sat(f, lo + 1, hi)
    }
}

/// Whatever a path reaches from a numbered vertex is numbered.
pub proof fn lemma_path_seen(adj: Seq<Seq<usize>>, s: usize, t: DfsTree, p: Seq<int>, i: int)
    requires
        dfs_tree(adj, s, t),
        is_path(adj, p),
        t.seen[p[0]],
        0 <= i < p.len(),
    ensures
        0 <= p[i] < adj.len(),
        t.seen[p[i]],
        i > 0 ==> t.num[p[i]] < t.end[p[i - 1]],
    decreases i,
{
    if i > 0 {
        lemma_path_seen(adj, s, t, p, i - 1);
        let a = p[i - 1];
        assert(edge_at(adj, p, i - 1));
        let e = choose|e: int| 0 <= e < adj[a].len() && #[trigger] adj[a][e] == p[i];
        assert(t.seen[adj[a][e] as int]);
    }
}

/// Two numbered vertices with one number are one vertex.
pub proof fn lemma_same_num(adj: Seq<Seq<usize>>, s: usize, t: DfsTree, a: int, b: int)
    requires
        dfs_tree(adj, s, t),
        0 <= a < adj.len(),
        0 <= b < adj.len(),
        t.seen[a],
        t.seen[b],
        t.num[a] == t.num[b],
    ensures
        a == b,
{
    assert(t.order[t.num[a] as int] == a);
    assert(t.order[t.num[b] as int] == b);
}

/// Along a path from a numbered vertex, the vertex with the smallest number
/// so far has everything so far in its subtree.
proof fn lemma_path_min(adj: Seq<Seq<usize>>, s: usize, t: DfsTree, q: Seq<int>, j: int) -> (l: int)
    requires
        dfs_tree(adj, s, t),
        is_path(adj, q),
        t.seen[q[0]],
        0 <= j < q.len(),
    ensures
        0 <= l <= j,
        0 <= q[l] < adj.len(),
        t.seen[q[l]],
        t.num[q[l]] <= t.num[q[0]],
        t.num[q[l]] <= t.num[q[j]],
        t.num[q[j]] < t.end[q[l]],
    decreases j,
{
    if j == 0 {
        assert(0 <= q[0] < adj.len());
        0
    } else {
        let l0 = lemma_path_min(adj, s, t, q, j - 1);
        lemma_path_seen(adj, s, t, q, j - 1);
        lemma_path_seen(adj, s, t, q, j);
        lemma_anc_up(adj, s, t, q[l0], q[j - 1]);
        lemma_anc_iff(adj, s, t, q[l0], q[j - 1]);
        if t.num[q[j]] < t.num[q[l0]] {
            j
        } else {
            l0
        }
    }
}

/// A path from a numbered vertex to one with a number that is no smaller
/// passes through an ancestor of its end whose number is no larger than that
/// of its beginning.
pub proof fn lemma_path_low_ancestor(adj: Seq<Seq<usize>>, s: usize, t: DfsTree, q: Seq<int>) -> (l: int)
    requires
        dfs_tree(adj, s, t),
        is_path(adj, q),
        t.seen[q[0]],
        t.num[q[0]] <= t.num[q.last()],
    ensures
        0 <= l < q.len(),
        0 <= q[l] < adj.len(),
        t.seen[q[l]],
        ancestor(t.par, q[l], q.last()),
        t.num[q[l]] <= t.num[q[0]],
{
    let l = lemma_path_min(adj, s, t, q, q.len() - 1);
    lemma_path_seen(adj, s, t, q, q.len() - 1);
    lemma_anc_up(adj, s, t, q[l], q.last());
    l
}

/// The way down the tree from an ancestor `a` to `v` is a path of the graph
/// that stays between the two.
pub proof fn lemma_tree_path(adj: Seq<Seq<usize>>, s: usize, t: DfsTree, a: int, v: int, k: nat) -> (pth: Seq<int>)
    requires
        dfs_tree(adj, s, t),
        0 <= v < adj.len(),
        t.seen[v],
        walk(t.par, v, k) == a,
    ensures
        connects(adj, pth, a, v),
        forall|i: int|
            0 <= i < pth.len() ==> ancestor(t.par, a, #[trigger] pth[i]) && ancestor(
                t.par,
                pth[i],
                v,
            ),
    decreases k,
{
    lemma_start(adj, s, t);
    if a == v {
        lemma_ancestor_self(t.par, v);
        let pth = seq![v];
        assert(pth[0] == v);
        pth
    } else {
        if v == s {
            lemma_top_fixed(t.par, v, k);
        }
        let q = t.par[v] as int;
        lemma_walk_step(t.par, v, (k - 1) as nat);
        let shorter = lemma_tree_path(adj, s, t, a, q, (k - 1) as nat);
        lemma_path_push(adj, shorter, v);
        let pth = shorter.push(v);
        lemma_ancestor_self(t.par, v);
        assert forall|i: int| 0 <= i < pth.len() implies ancestor(t.par, a, #[trigger] pth[i])
            && ancestor(t.par, pth[i], v) by {
            if i < shorter.len() {
                assert(pth[i] == shorter[i]);
                lemma_ancestor_unfold(t.par, shorter[i], v);
            } else {
                assert(walk(t.par, v, k) == a);
            }
        }
        pth
    }
}

/// The way down the tree between two vertices, of which the upper is known
/// to be an ancestor of the lower.
pub proof fn lemma_tree_path_between(adj: Seq<Seq<usize>>, s: usize, t: DfsTree, a: int, v: int) -> (pth: Seq<int>)
    requires
        dfs_tree(adj, s, t),
        0 <= v < adj.len(),
        t.seen[v],
        ancestor(t.par, a, v),
    ensures
        connects(adj, pth, a, v),
        forall|i: int|
            0 <= i < pth.len() ==> ancestor(t.par, a, #[trigger] pth[i]) && ancestor(
                t.par,
                pth[i],
                v,
            ),
        forall|x: int| pth.contains(x) ==> ancestor(t.par, a, x) && ancestor(t.par, x, v),
{
    let k = choose|k: nat| #[trigger] walk(t.par, v, k) == a;
    let pth = lemma_tree_path(adj, s, t, a, v, k);
    assert forall|x: int| pth.contains(x) implies ancestor(t.par, a, x) && ancestor(
        t.par,
        x,
        v,
    ) by {
        let i = choose|i: int| 0 <= i < pth.len() && pth[i] == x;
        assert(ancestor(t.par, a, pth[i]));
    }
    pth
}

/// Whatever lies on every path from the start to a numbered vertex is one of
/// its ancestors.
pub proof fn lemma_dominator_is_ancestor(adj: Seq<Seq<usize>>, s: usize, t: DfsTree, x: int, w: int)
    requires
        dfs_tree(adj, s, t),
        0 <= w < adj.len(),
        t.seen[w],
        dominates_in(adj, s as int, x, w),
    ensures
        ancestor(t.par, x, w),
{
    lemma_par_forest(adj, s, t);
    let pth = lemma_tree_path_between(adj, s, t, s as int, w);
    assert(connects(adj, pth, s as int, w));
    assert(pth.contains(x));
}

/// Position `m` of `p` holds a vertex numbered below `tt`.
pub open spec fn below_at(t: DfsTree, p: Seq<int>, tt: int, m: int) -> bool {
    0 <= m < p.len() && t.num[p[m]] < t.num[tt]
}

/// Position `m` of `p` holds a vertex on the tree path from `tt` down to `w`.
pub open spec fn chain_at(t: DfsTree, p: Seq<int>, tt: int, w: int, m: int) -> bool {
    0 <= m < p.len() && ancestor(t.par, tt, p[m]) && ancestor(t.par, p[m], w)
}

/// Between the last position numbered below `tt` and the first position
/// after it on the tree path from `tt` to `w`, every vertex of the path is
/// numbered above the one at that first position.
proof fn lemma_cut_gap(
    adj: Seq<Seq<usize>>,
    s: usize,
    t: DfsTree,
    p: Seq<int>,
    w: int,
    tt: int,
    i: int,
    j: int,
    m: int,
)
    requires
        dfs_tree(adj, s, t),
        is_path(adj, p),
        t.seen[p[0]],
        0 <= tt < adj.len(),
        t.seen[tt],
        0 <= w < adj.len(),
        t.seen[w],
        0 <= i < m < j < p.len(),
        forall|l: int| i < l <= p.len() - 1 ==> !#[trigger] below_at(t, p, tt, l),
        forall|l: int| i < l < j ==> !#[trigger] chain_at(t, p, tt, w, l),
        chain_at(t, p, tt, w, j),
    ensures
        t.num[p[m]] > t.num[p[j]],
{
    let y = p[j];
    lemma_path_seen(adj, s, t, p, j);
    lemma_path_seen(adj, s, t, p, m);
    if t.num[p[m]] <= t.num[y] {
        assert(!chain_at(t, p, tt, w, m));
        if t.num[p[m]] == t.num[y] {
            lemma_same_num(adj, s, t, p[m], y);
        }
        let q = p.subrange(m, j + 1);
        lemma_path_part(adj, p, m, j);
        let l0 = lemma_path_low_ancestor(adj, s, t, q);
        let l = m + l0;
        let a = p[l];
        assert(q[l0] == a);
        assert(q.last() == y);
        assert(q[0] == p[m]);
        assert(l != j);
        assert(!below_at(t, p, tt, l));
        lemma_anc_iff(adj, s, t, tt, y);
        lemma_anc_iff(adj, s, t, a, y);
        lemma_anc_up(adj, s, t, tt, a);
        lemma_ancestor_transitive(t.par, a, y, w);
        assert(chain_at(t, p, tt, w, l));
        assert(false);
    }
}

/// A path from the start to `w` that misses a proper ancestor `tt` of `w`
/// holds a stretch from a vertex numbered below `tt` to a vertex on the tree
/// path from `tt` down to `w`, which in between touches only vertices
/// numbered above its end.
pub proof fn lemma_cut(adj: Seq<Seq<usize>>, s: usize, t: DfsTree, p: Seq<int>, w: int, tt: int) -> (ij: (
    int,
    int,
))
    requires
        dfs_tree(adj, s, t),
        connects(adj, p, s as int, w),
        0 <= tt < adj.len(),
        t.seen[tt],
        ancestor(t.par, tt, w),
        tt != s,
        !p.contains(tt),
    ensures
        0 <= ij.0 < ij.1 < p.len(),
        0 <= p[ij.0] < adj.len(),
        0 <= p[ij.1] < adj.len(),
        t.seen[p[ij.0]],
        t.seen[p[ij.1]],
        t.num[p[ij.0]] < t.num[tt],
        ancestor(t.par, tt, p[ij.1]),
        ancestor(t.par, p[ij.1], w),
        p[ij.1] != tt,
        sd_path(adj, t, p.subrange(ij.0, ij.1 + 1), p[ij.1]),
        p.subrange(ij.0, ij.1 + 1)[0] == p[ij.0],
{
    lemma_start(adj, s, t);
    let last = p.len() - 1;
    lemma_path_seen(adj, s, t, p, last);
    lemma_anc_iff(adj, s, t, tt, w);
    lemma_ancestor_self(t.par, w);
    let f = |m: int| below_at(t, p, tt, m);
    let g = |m: int| chain_at(t, p, tt, w, m);
    assert(f(0));
    let i = lemma_last_sat(f, last);
    assert(!f(last));
    assert(g(last));
    let j = lemma_first_sat(g, i, last);
    assert forall|l: int| i < l <= p.len() - 1 implies !#[trigger] below_at(t, p, tt, l) by {
        assert(!f(l));
    }
    assert forall|l: int| i < l < j implies !#[trigger] chain_at(t, p, tt, w, l) by {
        assert(!g(l));
    }
    lemma_cut_stretch(adj, s, t, p, w, tt, i, j);
    (i, j)
}

proof fn lemma_cut_stretch(
    adj: Seq<Seq<usize>>,
    s: usize,
    t: DfsTree,
    p: Seq<int>,
    w: int,
    tt: int,
    i: int,
    j: int,
)
    requires
        dfs_tree(adj, s, t),
        is_path(adj, p),
        t.seen[p[0]],
        0 <= tt < adj.len(),
        t.seen[tt],
        0 <= w < adj.len(),
        t.seen[w],
        !p.contains(tt),
        0 <= i < j < p.len(),
        below_at(t, p, tt, i),
        forall|l: int| i < l <= p.len() - 1 ==> !#[trigger] below_at(t, p, tt, l),
        forall|l: int| i < l < j ==> !#[trigger] chain_at(t, p, tt, w, l),
        chain_at(t, p, tt, w, j),
    ensures
        0 <= p[i] < adj.len(),
        0 <= p[j] < adj.len(),
        t.seen[p[i]],
        t.seen[p[j]],
        p[j] != tt,
        sd_path(adj, t, p.subrange(i, j + 1), p[j]),
        p.subrange(i, j + 1)[0] == p[i],
{
    lemma_path_seen(adj, s, t, p, i);
    lemma_path_seen(adj, s, t, p, j);
    assert(p[j] != tt) by {
        if p[j] == tt {
            assert(p.contains(tt));
        }
    }
    let q0 = p.subrange(i, j + 1);
    lemma_path_part(adj, p, i, j);
    assert forall|m: int| 0 < m < q0.len() - 1 implies t.num[#[trigger] q0[m]] > t.num[p[j]] by {
        assert(q0[m] == p[i + m]);
        lemma_cut_gap(adj, s, t, p, w, tt, i, j, i + m);
    }
}

/// If no vertex strictly between the semidominator of `w` and `w` on the tree
/// has a smaller semidominator than `w`, the semidominator of `w` is its
/// immediate dominator.
pub proof fn lemma_idom_direct(adj: Seq<Seq<usize>>, s: usize, t: DfsTree, sd: Seq<usize>, w: int)
    requires
        dfs_tree(adj, s, t),
        semis_final(adj, s, t, sd),
        0 <= w < adj.len(),
        t.seen[w],
        w != s,
        forall|x: int| #[trigger]
            between(t.par, w, t.order[sd[w] as int] as int, x) ==> sd[x] >= sd[w],
    ensures
        is_idom(adj, s as int, t.order[sd[w] as int] as int, w),
{
    let a = t.order[sd[w] as int] as int;
    lemma_start(adj, s, t);
    lemma_par_forest(adj, s, t);
    assert(t.num[t.order[sd[w] as int] as int] == sd[w]);
    assert(is_semi(adj, t, w, sd[w] as int));
    assert forall|p: Seq<int>| #[trigger] connects(adj, p, s as int, w) implies p.contains(a) by {
        if a == s {
            assert(p[0] == a);
        } else if !p.contains(a) {
            let (i, j) = lemma_cut(adj, s, t, p, w, a);
            let y = p[j];
            lemma_anc_iff(adj, s, t, a, y);
            assert(y != s);
            assert(is_semi(adj, t, y, sd[y] as int));
            assert(sd[y] <= t.num[p[i]]);
            assert(between(t.par, w, a, y));
            assert(false);
        }
    }
    assert forall|x: int| x != w && #[trigger] dominates_in(adj, s as int, x, w) implies dominates_in(
        adj,
        s as int,
        x,
        a,
    ) by {
        lemma_dominator_is_ancestor(adj, s, t, x, w);
        lemma_anc_iff(adj, s, t, x, w);
        let r = choose|r: Seq<int>| #[trigger] sd_path(adj, t, r, w) && r[0] == t.order[sd[w] as int];
        assert forall|q: Seq<int>| #[trigger] connects(adj, q, s as int, a) implies q.contains(
            x,
        ) by {
            if x != a && !q.contains(x) {
                lemma_path_join(adj, q, r);
                let big = q + r.skip(1);
                assert(connects(adj, big, s as int, w));
                assert(big.contains(x));
                assert(r.contains(x));
                let m = choose|m: int| 0 <= m < r.len() && r[m] == x;
                assert(0 < m < r.len() - 1);
                assert(t.num[r[m]] > t.num[w]);
                assert(false);
            }
            if x == a {
                assert(q[q.len() - 1] == a);
            }
        }
    }
}

/// If `u` has the smallest semidominator among the vertices strictly between
/// the semidominator of `w` and `w` on the tree, and a smaller one than `w`,
/// the immediate dominator of `u` is that of `w`.
pub proof fn lemma_idom_deferred(
    adj: Seq<Seq<usize>>,
    s: usize,
    t: DfsTree,
    sd: Seq<usize>,
    w: int,
    u: int,
    d: int,
)
    requires
        dfs_tree(adj, s, t),
        semis_final(adj, s, t, sd),
        0 <= w < adj.len(),
        t.seen[w],
        w != s,
        between(t.par, w, t.order[sd[w] as int] as int, u),
        sd[u] < sd[w],
        forall|x: int| #[trigger]
            between(t.par, w, t.order[sd[w] as int] as int, x) ==> sd[u] <= sd[x],
        is_idom(adj, s as int, d, u),
        ancestor(t.par, d, t.order[sd[u] as int] as int),
    ensures
        is_idom(adj, s as int, d, w),
        ancestor(t.par, d, t.order[sd[w] as int] as int),
{
    let a = t.order[sd[w] as int] as int;
    lemma_start(adj, s, t);
    lemma_par_forest(adj, s, t);
    assert(is_semi(adj, t, w, sd[w] as int));
    assert(t.num[t.order[sd[w] as int] as int] == sd[w]);
    lemma_anc_iff(adj, s, t, u, w);
    lemma_anc_iff(adj, s, t, a, w);
    lemma_anc_iff(adj, s, t, a, u);
    assert(u != s);
    let au = t.order[sd[u] as int] as int;
    assert(is_semi(adj, t, u, sd[u] as int));
    assert(t.num[t.order[sd[u] as int] as int] == sd[u]);
    lemma_anc_iff(adj, s, t, au, u);
    lemma_anc_up(adj, s, t, au, a);
    lemma_ancestor_transitive(t.par, d, au, a);
    lemma_anc_iff(adj, s, t, d, au);
    lemma_anc_iff(adj, s, t, d, a);
    lemma_ancestor_transitive(t.par, d, a, w);
    lemma_anc_iff(adj, s, t, d, w);
    assert forall|p: Seq<int>| #[trigger] connects(adj, p, s as int, w) implies p.contains(d) by {
        if d == s {
            assert(p[0] == d);
        } else if !p.contains(d) {
            let (i, j) = lemma_cut(adj, s, t, p, w, d);
            let y = p[j];
            lemma_anc_iff(adj, s, t, d, y);
            lemma_anc_iff(adj, s, t, y, w);
            assert(y != s);
            assert(is_semi(adj, t, y, sd[y] as int));
            assert(sd[y] <= t.num[p[i]]);
            if t.num[y] > t.num[a] {
                lemma_anc_up(adj, s, t, a, y);
                assert(between(t.par, w, a, y));
                assert(false);
            } else {
                lemma_anc_up(adj, s, t, y, u);
                lemma_avoiding_path(adj, s, t, sd, y, u, d);
                assert(false);
            }
        }
    }
    assert forall|x: int| x != w && #[trigger] dominates_in(adj, s as int, x, w) implies dominates_in(
        adj,
        s as int,
        x,
        d,
    ) by {
        lemma_dominator_is_ancestor(adj, s, t, x, w);
        lemma_anc_iff(adj, s, t, x, w);
        if t.num[x] >= t.num[u] {
            // the tree path to the semidominator of `w`, then the path that
            // makes it the semidominator, misses `x`
            let r = choose|r: Seq<int>| #[trigger]
                sd_path(adj, t, r, w) && r[0] == t.order[sd[w] as int];
            let q = lemma_tree_path_between(adj, s, t, s as int, a);
            lemma_path_join(adj, q, r);
            let big = q + r.skip(1);
            assert(connects(adj, big, s as int, w));
            assert(big.contains(x));
            if q.contains(x) {
                lemma_anc_iff(adj, s, t, x, a);
            } else {
                let m = choose|m: int| 0 <= m < r.len() && r[m] == x;
                if 0 < m < r.len() - 1 {
                    assert(t.num[r[m]] > t.num[w]);
                }
            }
            assert(false);
        }
        lemma_anc_up(adj, s, t, x, u);
        assert forall|q: Seq<int>| #[trigger] connects(adj, q, s as int, u) implies q.contains(
            x,
        ) by {
            if !q.contains(x) {
                let r = lemma_tree_path_between(adj, s, t, u, w);
                lemma_path_join(adj, q, r);
                let big = q + r.skip(1);
                assert(connects(adj, big, s as int, w));
                assert(big.contains(x));
                assert(r.contains(x));
                lemma_anc_iff(adj, s, t, u, x);
                assert(false);
            }
        }
        assert(dominates_in(adj, s as int, x, u));
    }
}

/// From the start a path that misses `d` leads to `u`, if an ancestor `y` of
/// `u` below `d` on the tree has a semidominator numbered before `d`.
proof fn lemma_avoiding_path(adj: Seq<Seq<usize>>, s: usize, t: DfsTree, sd: Seq<usize>, y: int, u: int, d: int)
    requires
        dfs_tree(adj, s, t),
        semis_final(adj, s, t, sd),
        0 <= y < adj.len(),
        0 <= u < adj.len(),
        0 <= d < adj.len(),
        t.seen[y],
        t.seen[u],
        t.seen[d],
        y != s,
        ancestor(t.par, y, u),
        t.num[d] < t.num[y],
        sd[y] < t.num[d],
    ensures
        !dominates_in(adj, s as int, d, u),
{
    lemma_start(adj, s, t);
    lemma_par_forest(adj, s, t);
    assert(is_semi(adj, t, y, sd[y] as int));
    let ay = t.order[sd[y] as int] as int;
    assert(t.num[t.order[sd[y] as int] as int] == sd[y]);
    let r = choose|r: Seq<int>| #[trigger] sd_path(adj, t, r, y) && r[0] == t.order[sd[y] as int];
    let descent = lemma_tree_path_between(adj, s, t, s as int, ay);
    let onward = lemma_tree_path_between(adj, s, t, y, u);
    lemma_path_join(adj, descent, r);
    let joined = descent + r.skip(1);
    lemma_path_join(adj, joined, onward);
    let big = joined + onward.skip(1);
    assert(connects(adj, big, s as int, u));
    if big.contains(d) {
        if descent.contains(d) {
            lemma_anc_iff(adj, s, t, d, ay);
        } else if r.contains(d) {
            let m = choose|m: int| 0 <= m < r.len() && r[m] == d;
            if 0 < m < r.len() - 1 {
                assert(t.num[r[m]] > t.num[y]);
            }
        } else {
            assert(onward.contains(d));
            lemma_anc_iff(adj, s, t, y, d);
        }
        assert(false);
    }
}

/// `idom` is the dominator tree of the graph for the start `s`: every vertex
/// that can be reached from `s` holds its immediate dominator, and `s` and
/// what cannot be reached hold themselves.
pub open spec fn is_dom_tree(adj: Seq<Seq<usize>>, s: int, idom: Seq<usize>) -> bool {
    &&& idom.len() == adj.len()
    &&& is_forest(idom)
    &&& 0 <= s < adj.len()
    &&& idom[s] == s
    &&& forall|v: int| 0 <= v < adj.len() && !reachable(adj, s, v) ==> #[trigger] idom[v] == v
    &&& forall|v: int|
        0 <= v < adj.len() && v != s && reachable(adj, s, v) ==> is_idom(
            adj,
            s,
            (#[trigger] idom[v]) as int,
            v,
        )
}

/// What lies on every path to a vertex that lies on every path to `c` lies on
/// every path to `c`.
pub proof fn lemma_dominance_transitive(adj: Seq<Seq<usize>>, s: int, a: int, b: int, c: int)
    requires
        closed_adj(adj),
        dominates_in(adj, s, a, b),
        dominates_in(adj, s, b, c),
    ensures
        dominates_in(adj, s, a, c),
{
    assert forall|p: Seq<int>| #[trigger] connects(adj, p, s, c) implies p.contains(a) by {
        assert(p.contains(b));
        let i = choose|i: int| 0 <= i < p.len() && p[i] == b;
        lemma_path_part(adj, p, 0, i);
        let q = p.subrange(0, i + 1);
        assert(connects(adj, q, s, b));
        assert(q.contains(a));
        let j = choose|j: int| 0 <= j < q.len() && q[j] == a;
        assert(p[j] == a);
    }
}

/// What lies on every path to a vertex that can be reached can be reached.
pub proof fn lemma_dominator_reachable(adj: Seq<Seq<usize>>, s: int, d: int, v: int)
    requires
        closed_adj(adj),
        reachable(adj, s, v),
        dominates_in(adj, s, d, v),
    ensures
        reachable(adj, s, d),
{
    let p = choose|p: Seq<int>| #[trigger] connects(adj, p, s, v);
    assert(p.contains(d));
    let i = choose|i: int| 0 <= i < p.len() && p[i] == d;
    lemma_path_part(adj, p, 0, i);
    assert(connects(adj, p.subrange(0, i + 1), s, d));
}

/// Every vertex on the way from `m` up the dominator tree dominates `m`.
proof fn lemma_walk_dominates(adj: Seq<Seq<usize>>, s: int, idom: Seq<usize>, m: int, k: nat)
    requires
        closed_adj(adj),
        is_dom_tree(adj, s, idom),
        0 <= m < adj.len(),
        reachable(adj, s, m),
    ensures
        dominates_in(adj, s, walk(idom, m, k), m),
    decreases k,
{
    if k == 0 || m == s {
        if m == s {
            lemma_top_fixed(idom, m, k);
        }
        assert forall|p: Seq<int>| #[trigger] connects(adj, p, s, m) implies p.contains(m) by {
            assert(p[p.len() - 1] == m);
        }
    } else {
        let d = idom[m] as int;
        assert(is_idom(adj, s, d, m));
        lemma_dominator_reachable(adj, s, d, m);
        lemma_walk_step(idom, m, (k - 1) as nat);
        lemma_walk_dominates(adj, s, idom, d, (k - 1) as nat);
        lemma_dominance_transitive(adj, s, walk(idom, m, k), d, m);
    }
}

/// Every vertex that dominates `m` is on the way from `m` up the dominator
/// tree.
proof fn lemma_dominator_on_walk(adj: Seq<Seq<usize>>, s: int, idom: Seq<usize>, n: int, m: int, k: nat)
    requires
        closed_adj(adj),
        is_dom_tree(adj, s, idom),
        0 <= m < adj.len(),
        reachable(adj, s, m),
        dominates_in(adj, s, n, m),
        is_top(idom, walk(idom, m, k)),
    ensures
        ancestor(idom, n, m),
    decreases k,
{
    lemma_ancestor_self(idom, m);
    if n != m {
        if m == s {
            let p = seq![s];
            assert(connects(adj, p, s, m));
            assert(p.contains(n));
            assert(false);
        }
        let d = idom[m] as int;
        assert(is_idom(adj, s, d, m));
        assert(dominates_in(adj, s, n, d));
        lemma_dominator_reachable(adj, s, d, m);
        if k == 0 {
            assert(walk(idom, m, 0) == m);
            assert(false);
        }
        lemma_walk_step(idom, m, (k - 1) as nat);
        lemma_dominator_on_walk(adj, s, idom, n, d, (k - 1) as nat);
        lemma_ancestor_unfold(idom, n, m);
    }
}

/// In a dominator tree the vertices on the way from a reachable vertex `m` up
/// to the top are exactly the vertices that lie on every path from the start
/// to `m`.
pub proof fn lemma_tree_dominance(adj: Seq<Seq<usize>>, s: int, idom: Seq<usize>, n: int, m: int)
    requires
        closed_adj(adj),
        is_dom_tree(adj, s, idom),
        0 <= m < adj.len(),
        reachable(adj, s, m),
    ensures
        ancestor(idom, n, m) <==> dominates_in(adj, s, n, m),
{
    if ancestor(idom, n, m) {
        let k = choose|k: nat| #[trigger] walk(idom, m, k) == n;
        lemma_walk_dominates(adj, s, idom, m, k);
    }
    if dominates_in(adj, s, n, m) {
        assert(reaches_top(idom, m));
        let k = choose|k: nat| is_top(idom, #[trigger] walk(idom, m, k));
        lemma_dominator_on_walk(adj, s, idom, n, m, k);
    }
}

} // verus!
