//! What a depth-first traversal records, and why the record is a depth-first
//! spanning tree once the traversal has run dry.
//!
//! The traversal keeps a stack of candidate edges `(target, source)`. A vertex
//! is numbered when one of its candidates is popped while it is still unseen;
//! it then puts a candidate for each unseen neighbour on the stack. A vertex
//! is open until the stack has fallen below the height at which it was
//! numbered; the vertices numbered in between form its subtree.

use crate::util::paths::{
    closed_adj, connects, has_edge, lemma_closed_set_holds_reachable, lemma_edge_at,
    lemma_path_single, lemma_reachable_step, reachable,
};
use vstd::prelude::*;

verus! {

/// The record of a depth-first traversal.
pub struct DfsTree {
    /// By vertex: whether the traversal has numbered it.
    pub seen: Seq<bool>,
    /// The numbered vertices in the order they were numbered.
    pub order: Seq<usize>,
    /// By vertex: its number, the position it has in `order`.
    pub num: Seq<nat>,
    /// By vertex: the vertex it was first reached from; the start is its own
    /// parent.
    pub par: Seq<usize>,
    /// By vertex: one more than the largest number in its subtree.
    pub end: Seq<nat>,
}

/// A record together with the bookkeeping of a traversal under way.
pub struct DfsState {
    pub tree: DfsTree,
    /// By vertex: the height of the stack when the vertex was numbered.
    pub base: Seq<nat>,
    /// By vertex: whether its subtree is complete.
    pub shut: Seq<bool>,
}

/// The state before anything has been numbered.
pub open spec fn initial_state(n: nat) -> DfsState {
    DfsState {
        tree: DfsTree {
            seen: Seq::new(n, |v: int| false),
            order: Seq::empty(),
            num: Seq::new(n, |v: int| 0nat),
            par: Seq::new(n, |v: int| v as usize),
            end: Seq::new(n, |v: int| 0nat),
        },
        base: Seq::new(n, |v: int| 0nat),
        shut: Seq::new(n, |v: int| false),
    }
}

/// Every open vertex that was numbered above stack height `h` is shut; its
/// subtree ends with the last number given so far.
pub open spec fn close_above(d: DfsState, h: int) -> DfsState {
    DfsState {
        tree: DfsTree {
            seen: d.tree.seen,
            order: d.tree.order,
            num: d.tree.num,
            par: d.tree.par,
            end: Seq::new(
                d.tree.end.len(),
                |v: int|
                    if d.tree.seen[v] && !d.shut[v] && d.base[v] > h {
                        d.tree.order.len()
                    } else {
                        d.tree.end[v]
                    },
            ),
        },
        base: d.base,
        shut: Seq::new(d.shut.len(), |v: int| d.shut[v] || (d.tree.seen[v] && d.base[v] > h)),
    }
}

/// Vertex `c` is numbered at stack height `h`, reached from `p`.
pub open spec fn enter(d: DfsState, h: nat, c: usize, p: usize) -> DfsState {
    let e = close_above(d, h as int);
    DfsState {
        tree: DfsTree {
            seen: e.tree.seen.update(c as int, true),
            order: e.tree.order.push(c),
            num: e.tree.num.update(c as int, e.tree.order.len()),
            par: e.tree.par.update(c as int, p),
            end: e.tree.end,
        },
        base: e.base.update(c as int, h),
        shut: e.shut.update(c as int, false),
    }
}

/// Every record by vertex has one entry for each of the `n` vertices.
pub open spec fn shape_ok(n: nat, d: DfsState) -> bool {
    &&& d.tree.seen.len() == n
    &&& d.tree.num.len() == n
    &&& d.tree.par.len() == n
    &&& d.tree.end.len() == n
    &&& d.base.len() == n
    &&& d.shut.len() == n
}

/// `order` and `num` are inverse to each other on the numbered vertices.
pub open spec fn numbered(n: nat, t: DfsTree) -> bool {
    &&& forall|i: int|
        0 <= i < t.order.len() ==> (#[trigger] t.order[i]) < n && t.seen[t.order[i] as int]
            && t.num[t.order[i] as int] == i
    &&& forall|v: int|
        0 <= v < n && #[trigger] t.seen[v] ==> t.num[v] < t.order.len() && t.order[t.num[v] as int]
            == v
}

/// The first vertex numbered is the start, its own parent.
pub open spec fn rooted(s: usize, t: DfsTree) -> bool {
    t.order.len() > 0 ==> t.order[0] == s && t.seen[s as int] && t.par[s as int] == s
}

/// A vertex that has not been numbered is its own parent.
pub open spec fn unseen_idle(n: nat, t: DfsTree) -> bool {
    forall|v: int| 0 <= v < n && !t.seen[v] ==> #[trigger] t.par[v] == v
}

/// Every other numbered vertex was reached over an edge from a vertex
/// numbered before it.
pub open spec fn tree_edges(adj: Seq<Seq<usize>>, s: usize, t: DfsTree) -> bool {
    forall|v: int|
        0 <= v < adj.len() && t.seen[v] && v != s ==> {
            &&& (#[trigger] t.par[v]) < adj.len()
            &&& t.seen[t.par[v] as int]
            &&& t.num[t.par[v] as int] < t.num[v]
            &&& has_edge(adj, t.par[v] as int, v)
        }
}

/// Every candidate on the stack was put there by an open vertex numbered at
/// or below the candidate's height, over an edge of the graph. Before the
/// first numbering the stack holds the start alone.
pub open spec fn stack_ok(adj: Seq<Seq<usize>>, s: usize, d: DfsState, st: Seq<(usize, usize)>) -> bool {
    &&& d.tree.order.len() == 0 ==> st.len() == 1 && forall|v: int|
        0 <= v < adj.len() ==> !#[trigger] d.tree.seen[v]
    &&& forall|i: int|
        0 <= i < st.len() ==> {
            &&& (#[trigger] st[i]).0 < adj.len()
            &&& st[i].1 < adj.len()
            &&& if d.tree.order.len() == 0 {
                st[i].0 == s && st[i].1 == s
            } else {
                &&& d.tree.seen[st[i].1 as int]
                &&& !d.shut[st[i].1 as int]
                &&& d.base[st[i].1 as int] <= i
                &&& has_edge(adj, st[i].1 as int, st[i].0 as int)
            }
        }
}

/// The candidate `(c, p)` stands on the stack at height `from` or above.
pub open spec fn on_stack(st: Seq<(usize, usize)>, from: nat, c: usize, p: int) -> bool {
    exists|i: int| from <= i < st.len() && #[trigger] st[i] == (c, p as usize)
}

/// Every neighbour of a numbered vertex is numbered or stands on the stack as
/// its candidate. Of the vertex `cur`, only the first `upto` neighbours have
/// been looked at.
pub open spec fn pending_ok(
    adj: Seq<Seq<usize>>,
    d: DfsState,
    st: Seq<(usize, usize)>,
    cur: int,
    upto: int,
) -> bool {
    forall|x: int, e: int|
        0 <= x < adj.len() && d.tree.seen[x] && 0 <= e < (if x == cur {
            upto
        } else {
            adj[x].len() as int
        }) ==> d.tree.seen[(#[trigger] adj[x][e]) as int] || on_stack(st, d.base[x], adj[x][e], x)
}

/// An open vertex numbered at or below the height of a candidate was numbered
/// no later than the vertex that put the candidate there.
pub open spec fn stack_sorted(n: nat, d: DfsState, st: Seq<(usize, usize)>) -> bool {
    forall|i: int, a: int|
        0 <= i < st.len() && 0 <= a < n && d.tree.seen[a] && !#[trigger] d.shut[a] && d.base[a]
            <= i ==> d.tree.num[a] <= d.tree.num[(#[trigger] st[i]).1 as int]
}

/// What holds of subtrees: a shut vertex has a subtree that ends after it
/// begins; a child's subtree lies inside its parent's; the neighbours of a
/// shut vertex are numbered before its subtree ends; and whatever is numbered
/// inside a subtree has its parent there too.
pub open spec fn intervals_ok(adj: Seq<Seq<usize>>, s: usize, d: DfsState) -> bool {
    let t = d.tree;
    &&& forall|v: int|
        0 <= v < adj.len() && t.seen[v] && #[trigger] d.shut[v] ==> t.num[v] < t.end[v]
            <= t.order.len()
    &&& forall|v: int|
        0 <= v < adj.len() && t.seen[v] && v != s ==> d.base[(#[trigger] t.par[v]) as int]
            <= d.base[v] && (d.shut[t.par[v] as int] ==> d.shut[v] && t.end[v]
            <= t.end[t.par[v] as int])
    &&& forall|x: int, e: int|
        0 <= x < adj.len() && t.seen[x] && d.shut[x] && 0 <= e < adj[x].len() ==> t.seen[(
        #[trigger] adj[x][e]) as int] && t.num[adj[x][e] as int] < t.end[x]
    &&& forall|a: int, x: int|
        0 <= a < adj.len() && 0 <= x < adj.len() && t.seen[a] && t.seen[x] && #[trigger] before(t, a, x)
            && (d.shut[a] ==> t.num[x] < t.end[a]) ==> t.num[t.par[x] as int] >= t.num[a]
}

/// `a` was numbered before `x`.
pub open spec fn before(t: DfsTree, a: int, x: int) -> bool {
    t.num[a] < t.num[x]
}

/// The invariant of a traversal from `s` with the stack `st`.
pub open spec fn dfs_inv(
    adj: Seq<Seq<usize>>,
    s: usize,
    st: Seq<(usize, usize)>,
    d: DfsState,
    cur: int,
    upto: int,
) -> bool {
    &&& closed_adj(adj)
    &&& s < adj.len()
    &&& shape_ok(adj.len(), d)
    &&& numbered(adj.len(), d.tree)
    &&& rooted(s, d.tree)
    &&& unseen_idle(adj.len(), d.tree)
    &&& tree_edges(adj, s, d.tree)
    &&& stack_ok(adj, s, d, st)
    &&& pending_ok(adj, d, st, cur, upto)
    &&& stack_sorted(adj.len(), d, st)
    &&& intervals_ok(adj, s, d)
}

/// `t` is a depth-first spanning tree of what can be reached from `s`,
/// numbered in preorder: every numbered vertex but `s` hangs by an edge under
/// a vertex numbered before it, the subtree of `v` holds exactly the numbers
/// from `num[v]` up to `end[v]`, and no edge leaves a subtree towards a
/// larger number.
pub open spec fn dfs_tree(adj: Seq<Seq<usize>>, s: usize, t: DfsTree) -> bool {
    let n = adj.len();
    &&& closed_adj(adj)
    &&& s < n
    &&& t.seen.len() == n && t.num.len() == n && t.par.len() == n && t.end.len() == n
    &&& t.order.len() > 0
    &&& numbered(n, t)
    &&& rooted(s, t)
    &&& unseen_idle(n, t)
    &&& tree_edges(adj, s, t)
    &&& forall|v: int| 0 <= v < n && #[trigger] t.seen[v] ==> t.num[v] < t.end[v] <= t.order.len()
    &&& forall|v: int|
        0 <= v < n && #[trigger] t.seen[v] && v != s ==> t.end[v] <= t.end[t.par[v] as int]
    &&& forall|x: int, e: int|
        0 <= x < n && t.seen[x] && 0 <= e < adj[x].len() ==> t.seen[(#[trigger] adj[x][e]) as int]
            && t.num[adj[x][e] as int] < t.end[x]
    &&& forall|a: int, x: int|
        0 <= a < n && 0 <= x < n && t.seen[a] && t.seen[x] && #[trigger] before(t, a, x)
            && t.num[x] < t.end[a] ==> t.num[t.par[x] as int] >= t.num[a]
}

/// The invariant holds before the first step.
pub proof fn lemma_initial(adj: Seq<Seq<usize>>, s: usize)
    requires
        closed_adj(adj),
        s < adj.len(),
        adj.len() <= usize::MAX,
    ensures
        dfs_inv(adj, s, seq![(s, s)], initial_state(adj.len()), -1, 0),
{
}

/// Dropping a candidate whose target is numbered already keeps the invariant.
pub proof fn lemma_pop_stale(adj: Seq<Seq<usize>>, s: usize, st: Seq<(usize, usize)>, d: DfsState)
    requires
        dfs_inv(adj, s, st, d, -1, 0),
        st.len() > 0,
        d.tree.seen[st.last().0 as int],
    ensures
        dfs_inv(adj, s, st.drop_last(), d, -1, 0),
{
    let st2 = st.drop_last();
    let h = st2.len() as int;
    assert(st[h] == st.last());
    assert(d.tree.order.len() > 0);
    assert forall|i: int| 0 <= i < st2.len() implies st2[i] == st[i] by {}
    assert(stack_ok(adj, s, d, st2));
    assert forall|x: int, e: int|
        0 <= x < adj.len() && d.tree.seen[x] && 0 <= e < adj[x].len() implies d.tree.seen[(
    #[trigger] adj[x][e]) as int] || on_stack(st2, d.base[x], adj[x][e], x) by {
        if !d.tree.seen[adj[x][e] as int] {
            let i = choose|i: int| d.base[x] <= i < st.len() && #[trigger] st[i] == (adj[x][e], x as usize);
            assert(i != h);
            assert(st2[i] == (adj[x][e], x as usize));
        }
    }
    assert(stack_sorted(adj.len(), d, st2)) by {
        assert forall|i: int, a: int|
            0 <= i < st2.len() && 0 <= a < adj.len() && d.tree.seen[a] && !#[trigger] d.shut[a]
                && d.base[a] <= i implies d.tree.num[a] <= d.tree.num[(#[trigger] st2[i]).1 as int] by {
            assert(st2[i] == st[i]);
        }
    }
}

/// Numbering the target of the top candidate, unseen so far, keeps the
/// invariant; none of the new vertex's neighbours has been looked at yet.
pub proof fn lemma_enter(adj: Seq<Seq<usize>>, s: usize, st: Seq<(usize, usize)>, d: DfsState)
    requires
        dfs_inv(adj, s, st, d, -1, 0),
        st.len() > 0,
        !d.tree.seen[st.last().0 as int],
    ensures
        dfs_inv(
            adj,
            s,
            st.drop_last(),
            enter(d, st.drop_last().len(), st.last().0, st.last().1),
            st.last().0 as int,
            0,
        ),
{
    let st2 = st.drop_last();
    let h = st2.len();
    let c = st.last().0;
    let p = st.last().1;
    let d2 = enter(d, h, c, p);
    let n = adj.len();
    let k = d.tree.order.len();
    assert(st[h as int] == st.last());
    assert forall|i: int| 0 <= i < st2.len() implies st2[i] == st[i] by {}
    assert(k > 0 ==> d.tree.seen[p as int] && p != c);
    assert(k == 0 ==> c == s && p == s && h == 0);
    lemma_enter_numbered(adj, s, st, d);
    lemma_enter_stack(adj, s, st, d);
    lemma_enter_intervals(adj, s, st, d);
    lemma_enter_parents(adj, s, st, d);
}

proof fn lemma_enter_numbered(adj: Seq<Seq<usize>>, s: usize, st: Seq<(usize, usize)>, d: DfsState)
    requires
        dfs_inv(adj, s, st, d, -1, 0),
        st.len() > 0,
        !d.tree.seen[st.last().0 as int],
    ensures
        shape_ok(adj.len(), enter(d, st.drop_last().len(), st.last().0, st.last().1)),
        numbered(adj.len(), enter(d, st.drop_last().len(), st.last().0, st.last().1).tree),
        rooted(s, enter(d, st.drop_last().len(), st.last().0, st.last().1).tree),
        unseen_idle(adj.len(), enter(d, st.drop_last().len(), st.last().0, st.last().1).tree),
        tree_edges(adj, s, enter(d, st.drop_last().len(), st.last().0, st.last().1).tree),
{
    let st2 = st.drop_last();
    let h = st2.len();
    let c = st.last().0;
    let p = st.last().1;
    let d2 = enter(d, h, c, p);
    let t = d.tree;
    let t2 = d2.tree;
    let n = adj.len();
    let k = d.tree.order.len();
    assert(st[h as int] == st.last());
    assert forall|i: int| 0 <= i < t2.order.len() implies (#[trigger] t2.order[i]) < n
        && t2.seen[t2.order[i] as int] && t2.num[t2.order[i] as int] == i by {
        if i < k {
            assert(t2.order[i] == t.order[i]);
            assert(t.seen[t.order[i] as int]);
        }
    }
    assert forall|v: int| 0 <= v < n && #[trigger] t2.seen[v] implies t2.num[v] < t2.order.len()
        && t2.order[t2.num[v] as int] == v by {
        if v != c {
            assert(t.seen[v]);
        }
    }
    assert forall|v: int| 0 <= v < adj.len() && t2.seen[v] && v != s implies {
        &&& (#[trigger] t2.par[v]) < adj.len()
        &&& t2.seen[t2.par[v] as int]
        &&& t2.num[t2.par[v] as int] < t2.num[v]
        &&& has_edge(adj, t2.par[v] as int, v)
    } by {
        if v != c {
            assert(t.seen[v]);
            assert(t2.par[v] == t.par[v]);
        }
    }
}

proof fn lemma_enter_stack(adj: Seq<Seq<usize>>, s: usize, st: Seq<(usize, usize)>, d: DfsState)
    requires
        dfs_inv(adj, s, st, d, -1, 0),
        st.len() > 0,
        !d.tree.seen[st.last().0 as int],
    ensures
        stack_ok(adj, s, enter(d, st.drop_last().len(), st.last().0, st.last().1), st.drop_last()),
        pending_ok(
            adj,
            enter(d, st.drop_last().len(), st.last().0, st.last().1),
            st.drop_last(),
            st.last().0 as int,
            0,
        ),
        stack_sorted(
            adj.len(),
            enter(d, st.drop_last().len(), st.last().0, st.last().1),
            st.drop_last(),
        ),
{
    let st2 = st.drop_last();
    let h = st2.len();
    let c = st.last().0;
    let p = st.last().1;
    let d2 = enter(d, h, c, p);
    let t = d.tree;
    let t2 = d2.tree;
    let n = adj.len();
    let k = d.tree.order.len();
    assert(st[h as int] == st.last());
    assert forall|i: int| 0 <= i < st2.len() implies st2[i] == st[i] by {}
    assert forall|i: int| 0 <= i < st2.len() implies {
        &&& (#[trigger] st2[i]).0 < adj.len()
        &&& st2[i].1 < adj.len()
        &&& d2.tree.seen[st2[i].1 as int]
        &&& !d2.shut[st2[i].1 as int]
        &&& d2.base[st2[i].1 as int] <= i
        &&& has_edge(adj, st2[i].1 as int, st2[i].0 as int)
    } by {
        assert(st2[i] == st[i]);
        assert(k > 0);
    }
    assert forall|x: int, e: int|
        0 <= x < adj.len() && d2.tree.seen[x] && 0 <= e < (if x == c as int {
            0
        } else {
            adj[x].len() as int
        }) implies d2.tree.seen[(#[trigger] adj[x][e]) as int] || on_stack(
        st2,
        d2.base[x],
        adj[x][e],
        x,
    ) by {
        assert(t.seen[x]);
        if !t.seen[adj[x][e] as int] {
            let i = choose|i: int| d.base[x] <= i < st.len() && #[trigger] st[i] == (adj[x][e], x as usize);
            if i != h {
                assert(st2[i] == (adj[x][e], x as usize));
            }
        }
    }
    assert forall|i: int, a: int|
        0 <= i < st2.len() && 0 <= a < n && d2.tree.seen[a] && !#[trigger] d2.shut[a] && d2.base[a]
            <= i implies d2.tree.num[a] <= d2.tree.num[(#[trigger] st2[i]).1 as int] by {
        assert(st2[i] == st[i]);
        assert(a != c);
        assert(!d.shut[a]);
    }
}

proof fn lemma_enter_intervals(adj: Seq<Seq<usize>>, s: usize, st: Seq<(usize, usize)>, d: DfsState)
    requires
        dfs_inv(adj, s, st, d, -1, 0),
        st.len() > 0,
        !d.tree.seen[st.last().0 as int],
    ensures
        ({
            let d2 = enter(d, st.drop_last().len(), st.last().0, st.last().1);
            let t = d2.tree;
            &&& forall|v: int|
                0 <= v < adj.len() && t.seen[v] && #[trigger] d2.shut[v] ==> t.num[v] < t.end[v]
                    <= t.order.len()
            &&& forall|v: int|
                0 <= v < adj.len() && t.seen[v] && v != s ==> d2.base[(#[trigger] t.par[v]) as int]
                    <= d2.base[v] && (d2.shut[t.par[v] as int] ==> d2.shut[v] && t.end[v]
                    <= t.end[t.par[v] as int])
            &&& forall|x: int, e: int|
                0 <= x < adj.len() && t.seen[x] && d2.shut[x] && 0 <= e < adj[x].len() ==> t.seen[(
                #[trigger] adj[x][e]) as int] && t.num[adj[x][e] as int] < t.end[x]
        }),
{
    let st2 = st.drop_last();
    let h = st2.len();
    let c = st.last().0;
    let p = st.last().1;
    let d2 = enter(d, h, c, p);
    let t = d.tree;
    let t2 = d2.tree;
    let n = adj.len();
    let k = d.tree.order.len();
    assert(st[h as int] == st.last());
    assert forall|v: int| 0 <= v < adj.len() && t2.seen[v] && #[trigger] d2.shut[v] implies t2.num[v]
        < t2.end[v] <= t2.order.len() by {
        assert(v != c);
        assert(t.seen[v]);
    }
    assert forall|v: int| 0 <= v < adj.len() && t2.seen[v] && v != s implies d2.base[(
    #[trigger] t2.par[v]) as int] <= d2.base[v] && (d2.shut[t2.par[v] as int] ==> d2.shut[v]
        && t2.end[v] <= t2.end[t2.par[v] as int]) by {
        if v == c {
            assert(k > 0);
        } else {
            assert(t.seen[v]);
            let q = t.par[v] as int;
            assert(t.seen[q]);
            assert(q != c);
            if d2.shut[q] {
                if d.shut[q] {
                    assert(d.shut[v]);
                }
            }
        }
    }
    assert forall|x: int, e: int|
        0 <= x < adj.len() && t2.seen[x] && d2.shut[x] && 0 <= e < adj[x].len() implies t2.seen[(
    #[trigger] adj[x][e]) as int] && t2.num[adj[x][e] as int] < t2.end[x] by {
        assert(x != c);
        assert(t.seen[x]);
        let y = adj[x][e];
        if d.shut[x] {
            assert(t.seen[y as int]);
        } else {
            if !t.seen[y as int] {
                let i = choose|i: int| d.base[x] <= i < st.len() && #[trigger] st[i] == (y, x as usize);
                assert(false);
            }
            assert(t.seen[y as int]);
        }
    }
}

proof fn lemma_enter_parents(adj: Seq<Seq<usize>>, s: usize, st: Seq<(usize, usize)>, d: DfsState)
    requires
        dfs_inv(adj, s, st, d, -1, 0),
        st.len() > 0,
        !d.tree.seen[st.last().0 as int],
    ensures
        ({
            let d2 = enter(d, st.drop_last().len(), st.last().0, st.last().1);
            let t = d2.tree;
            forall|a: int, x: int|
                0 <= a < adj.len() && 0 <= x < adj.len() && t.seen[a] && t.seen[x] && #[trigger] before(
                    t,
                    a,
                    x,
                ) && (d2.shut[a] ==> t.num[x] < t.end[a]) ==> t.num[t.par[x] as int] >= t.num[a]
        }),
{
    let st2 = st.drop_last();
    let h = st2.len();
    let c = st.last().0;
    let p = st.last().1;
    let d2 = enter(d, h, c, p);
    let t = d.tree;
    let t2 = d2.tree;
    let n = adj.len();
    let k = d.tree.order.len();
    assert(st[h as int] == st.last());
    assert forall|a: int, x: int|
        0 <= a < adj.len() && 0 <= x < adj.len() && t2.seen[a] && t2.seen[x] && #[trigger] before(
            t2,
            a,
            x,
        ) && (d2.shut[a] ==> t2.num[x] < t2.end[a]) implies t2.num[t2.par[x] as int]
        >= t2.num[a] by {
        assert(t2.num[a] < t2.num[x]);
        if x == c {
            assert(a != c);
            assert(t.seen[a]);
            assert(k > 0);
            if d2.shut[a] {
                if d.shut[a] {
                    assert(t.end[a] <= k);
                }
                assert(false);
            } else {
                assert(!d.shut[a]);
                assert(d.base[a] <= h);
                assert(t.num[a] <= t.num[st[h as int].1 as int]);
            }
        } else if a == c {
            assert(t.seen[x]);
        } else {
            assert(t.seen[a] && t.seen[x]);
            assert(before(t, a, x));
            if x != s as int {
                assert(t.seen[t.par[x] as int]);
            }
        }
    }
}

/// Looking at the next neighbour of the vertex numbered last, and putting a
/// candidate for it on the stack if it is unseen, keeps the invariant.
pub proof fn lemma_push(
    adj: Seq<Seq<usize>>,
    s: usize,
    st: Seq<(usize, usize)>,
    d: DfsState,
    c: usize,
    i: int,
)
    requires
        dfs_inv(adj, s, st, d, c as int, i),
        c < adj.len(),
        0 <= i < adj[c as int].len(),
        d.tree.seen[c as int],
        !d.shut[c as int],
        d.base[c as int] <= st.len(),
        d.tree.num[c as int] + 1 == d.tree.order.len(),
    ensures
        adj[c as int][i] < adj.len(),
        d.tree.seen[adj[c as int][i] as int] ==> dfs_inv(adj, s, st, d, c as int, i + 1),
        !d.tree.seen[adj[c as int][i] as int] ==> dfs_inv(
            adj,
            s,
            st.push((adj[c as int][i], c)),
            d,
            c as int,
            i + 1,
        ),
{
    let y = adj[c as int][i];
    let n = adj.len();
    lemma_edge_at(adj, c as int, i);
    if d.tree.seen[y as int] {
        assert forall|x: int, e: int|
            0 <= x < adj.len() && d.tree.seen[x] && 0 <= e < (if x == c as int {
                i + 1
            } else {
                adj[x].len() as int
            }) implies d.tree.seen[(#[trigger] adj[x][e]) as int] || on_stack(
            st,
            d.base[x],
            adj[x][e],
            x,
        ) by {}
    } else {
        let st2 = st.push((y, c));
        assert forall|j: int| 0 <= j < st.len() implies st2[j] == st[j] by {}
        assert(st2[st.len() as int] == (y, c));
        assert forall|x: int, e: int|
            0 <= x < adj.len() && d.tree.seen[x] && 0 <= e < (if x == c as int {
                i + 1
            } else {
                adj[x].len() as int
            }) implies d.tree.seen[(#[trigger] adj[x][e]) as int] || on_stack(
            st2,
            d.base[x],
            adj[x][e],
            x,
        ) by {
            if x == c as int && e == i {
                assert(on_stack(st2, d.base[x], adj[x][e], x));
            } else if !d.tree.seen[adj[x][e] as int] {
                let j = choose|j: int| d.base[x] <= j < st.len() && #[trigger] st[j] == (adj[x][e], x as usize);
                assert(st2[j] == (adj[x][e], x as usize));
            }
        }
        assert(stack_ok(adj, s, d, st2)) by {
            assert forall|j: int| 0 <= j < st2.len() implies {
                &&& (#[trigger] st2[j]).0 < adj.len()
                &&& st2[j].1 < adj.len()
                &&& d.tree.seen[st2[j].1 as int]
                &&& !d.shut[st2[j].1 as int]
                &&& d.base[st2[j].1 as int] <= j
                &&& has_edge(adj, st2[j].1 as int, st2[j].0 as int)
            } by {
                if j < st.len() {
                    assert(st2[j] == st[j]);
                }
            }
        }
        assert(stack_sorted(n, d, st2)) by {
            assert forall|j: int, a: int|
                0 <= j < st2.len() && 0 <= a < n && d.tree.seen[a] && !#[trigger] d.shut[a]
                    && d.base[a] <= j implies d.tree.num[a] <= d.tree.num[(#[trigger] st2[j]).1 as int] by {
                if j < st.len() {
                    assert(st2[j] == st[j]);
                }
            }
        }
    }
}

/// Once the stack is empty, shutting what is still open gives a depth-first
/// spanning tree, and the invariant goes on holding.
pub proof fn lemma_finish(adj: Seq<Seq<usize>>, s: usize, d: DfsState)
    requires
        dfs_inv(adj, s, Seq::<(usize, usize)>::empty(), d, -1, 0),
    ensures
        dfs_inv(adj, s, Seq::<(usize, usize)>::empty(), close_above(d, -1), -1, 0),
        dfs_tree(adj, s, close_above(d, -1).tree),
{
    lemma_finish_edges(adj, s, d);
    lemma_finish_nesting(adj, s, d);
    lemma_finish_parents(adj, s, d);
    lemma_shut_tree(adj, s, close_above(d, -1));
}

proof fn lemma_finish_edges(adj: Seq<Seq<usize>>, s: usize, d: DfsState)
    requires
        dfs_inv(adj, s, Seq::<(usize, usize)>::empty(), d, -1, 0),
    ensures
        shape_ok(adj.len(), close_above(d, -1)),
        stack_ok(adj, s, close_above(d, -1), Seq::<(usize, usize)>::empty()),
        stack_sorted(adj.len(), close_above(d, -1), Seq::<(usize, usize)>::empty()),
        pending_ok(adj, close_above(d, -1), Seq::<(usize, usize)>::empty(), -1, 0),
        ({
            let d2 = close_above(d, -1);
            let t = d2.tree;
            &&& forall|v: int|
                0 <= v < adj.len() && t.seen[v] && #[trigger] d2.shut[v] ==> t.num[v] < t.end[v]
                    <= t.order.len()
            &&& forall|x: int, e: int|
                0 <= x < adj.len() && t.seen[x] && d2.shut[x] && 0 <= e < adj[x].len() ==> t.seen[(
                #[trigger] adj[x][e]) as int] && t.num[adj[x][e] as int] < t.end[x]
        }),
{
    let st = Seq::<(usize, usize)>::empty();
    let d2 = close_above(d, -1);
    let t = d.tree;
    let t2 = d2.tree;
    let n = adj.len();
    assert forall|x: int, e: int|
        0 <= x < n && t.seen[x] && 0 <= e < adj[x].len() implies t.seen[(
    #[trigger] adj[x][e]) as int] by {
        if !t.seen[adj[x][e] as int] {
            assert(on_stack(st, d.base[x], adj[x][e], x));
        }
    }
    assert forall|x: int, e: int|
        0 <= x < adj.len() && t2.seen[x] && d2.shut[x] && 0 <= e < adj[x].len() implies t2.seen[(
    #[trigger] adj[x][e]) as int] && t2.num[adj[x][e] as int] < t2.end[x] by {
        assert(t.seen[adj[x][e] as int]);
    }
}

proof fn lemma_finish_nesting(adj: Seq<Seq<usize>>, s: usize, d: DfsState)
    requires
        dfs_inv(adj, s, Seq::<(usize, usize)>::empty(), d, -1, 0),
    ensures
        ({
            let d2 = close_above(d, -1);
            let t = d2.tree;
            forall|v: int|
                0 <= v < adj.len() && t.seen[v] && v != s ==> d2.base[(#[trigger] t.par[v]) as int]
                    <= d2.base[v] && (d2.shut[t.par[v] as int] ==> d2.shut[v] && t.end[v]
                    <= t.end[t.par[v] as int])
        }),
{
    let d2 = close_above(d, -1);
    let t = d.tree;
    let t2 = d2.tree;
    assert forall|v: int| 0 <= v < adj.len() && t2.seen[v] && v != s implies d2.base[(
    #[trigger] t2.par[v]) as int] <= d2.base[v] && (d2.shut[t2.par[v] as int] ==> d2.shut[v]
        && t2.end[v] <= t2.end[t2.par[v] as int]) by {
        let q = t.par[v] as int;
        assert(t.seen[v]);
        assert(t.seen[q]);
        if d.shut[q] {
            assert(d.shut[v]);
        } else {
            if d.shut[v] {
                assert(t.end[v] <= t.order.len());
            }
        }
    }
}

proof fn lemma_finish_parents(adj: Seq<Seq<usize>>, s: usize, d: DfsState)
    requires
        dfs_inv(adj, s, Seq::<(usize, usize)>::empty(), d, -1, 0),
    ensures
        ({
            let d2 = close_above(d, -1);
            let t = d2.tree;
            forall|a: int, x: int|
                0 <= a < adj.len() && 0 <= x < adj.len() && t.seen[a] && t.seen[x] && #[trigger] before(
                    t,
                    a,
                    x,
                ) && (d2.shut[a] ==> t.num[x] < t.end[a]) ==> t.num[t.par[x] as int] >= t.num[a]
        }),
{
    let d2 = close_above(d, -1);
    let t = d.tree;
    let t2 = d2.tree;
    assert forall|a: int, x: int|
        0 <= a < adj.len() && 0 <= x < adj.len() && t2.seen[a] && t2.seen[x] && #[trigger] before(
            t2,
            a,
            x,
        ) && (d2.shut[a] ==> t2.num[x] < t2.end[a]) implies t2.num[t2.par[x] as int]
        >= t2.num[a] by {
        assert(t2.num[a] < t2.num[x]);
        assert(before(t, a, x));
        if d.shut[a] {
            assert(t2.end[a] == t.end[a]);
        }
    }
}

/// With an empty stack a state in which every numbered vertex is shut holds a
/// depth-first spanning tree.
proof fn lemma_shut_tree(adj: Seq<Seq<usize>>, s: usize, d: DfsState)
    requires
        closed_adj(adj),
        s < adj.len(),
        shape_ok(adj.len(), d),
        numbered(adj.len(), d.tree),
        rooted(s, d.tree),
        unseen_idle(adj.len(), d.tree),
        tree_edges(adj, s, d.tree),
        stack_ok(adj, s, d, Seq::<(usize, usize)>::empty()),
        intervals_ok(adj, s, d),
        forall|v: int| 0 <= v < adj.len() && d.tree.seen[v] ==> #[trigger] d.shut[v],
    ensures
        dfs_tree(adj, s, d.tree),
{
    let t = d.tree;
    let n = adj.len();
    assert(t.order.len() > 0);
    assert forall|v: int| 0 <= v < n && #[trigger] t.seen[v] && v != s implies t.end[v]
        <= t.end[t.par[v] as int] by {
        let q = t.par[v];
        assert(d.shut[q as int]);
        assert(d.base[t.par[v] as int] <= d.base[v]);
    }
    assert forall|v: int| 0 <= v < n && #[trigger] t.seen[v] implies t.num[v] < t.end[v]
        <= t.order.len() by {
        assert(d.shut[v]);
    }
    assert forall|a: int, x: int|
        0 <= a < n && 0 <= x < n && t.seen[a] && t.seen[x] && #[trigger] before(t, a, x)
            && t.num[x] < t.end[a] implies t.num[t.par[x] as int] >= t.num[a] by {
        assert(d.shut[a]);
    }
    assert forall|x: int, e: int|
        0 <= x < n && t.seen[x] && 0 <= e < adj[x].len() implies t.seen[(
    #[trigger] adj[x][e]) as int] && t.num[adj[x][e] as int] < t.end[x] by {
        assert(d.shut[x]);
    }
}

/// A sequence of distinct indices below `n` has at most `n` elements.
pub proof fn lemma_distinct_bounded(q: Seq<usize>, n: nat)
    requires
        forall|i: int| 0 <= i < q.len() ==> #[trigger] q[i] < n,
        forall|i: int, j: int| 0 <= i < j < q.len() ==> q[i] != q[j],
    ensures
        q.len() <= n,
    decreases n,
{
    if q.len() == 0 {
    } else if n == 0 {
        assert(q[0] < n);
    } else {
        let m = (n - 1) as nat;
        if exists|j: int| 0 <= j < q.len() && q[j] == m {
            let j = choose|j: int| 0 <= j < q.len() && q[j] == m;
            let r = q.remove(j);
            assert forall|i: int| 0 <= i < r.len() implies #[trigger] r[i] < m by {
                if i < j {
                    assert(r[i] == q[i]);
                } else {
                    assert(r[i] == q[i + 1]);
                }
            }
            assert forall|i: int, l: int| 0 <= i < l < r.len() implies r[i] != r[l] by {
                let i2 = if i < j { i } else { i + 1 };
                let l2 = if l < j { l } else { l + 1 };
                assert(r[i] == q[i2] && r[l] == q[l2]);
            }
            lemma_distinct_bounded(r, m);
        } else {
            assert forall|i: int| 0 <= i < q.len() implies #[trigger] q[i] < m by {}
            lemma_distinct_bounded(q, m);
        }
    }
}

/// No more vertices are numbered than the graph has.
pub proof fn lemma_order_bounded(n: nat, t: DfsTree)
    requires
        numbered(n, t),
    ensures
        t.order.len() <= n,
{
    assert forall|i: int, j: int| 0 <= i < j < t.order.len() implies t.order[i] != t.order[j] by {
        assert(t.num[t.order[i] as int] == i);
        assert(t.num[t.order[j] as int] == j);
    }
    lemma_distinct_bounded(t.order, n);
}

/// What a depth-first spanning tree from `s` has numbered can be reached
/// from `s`.
pub proof fn lemma_seen_reachable(adj: Seq<Seq<usize>>, s: usize, t: DfsTree, v: int)
    requires
        dfs_tree(adj, s, t),
        0 <= v < adj.len(),
        t.seen[v],
    ensures
        reachable(adj, s as int, v),
    decreases t.num[v],
{
    if v == s {
        lemma_path_single(adj, v);
    } else {
        let q = t.par[v];
        lemma_seen_reachable(adj, s, t, q as int);
        lemma_reachable_step(adj, s as int, q as int, v);
    }
}

/// What can be reached from `s` is numbered in a depth-first spanning tree
/// from `s`.
pub proof fn lemma_reachable_seen(adj: Seq<Seq<usize>>, s: usize, t: DfsTree, v: int)
    requires
        dfs_tree(adj, s, t),
        reachable(adj, s as int, v),
    ensures
        0 <= v < adj.len(),
        t.seen[v],
{
    let p = choose|p: Seq<int>| #[trigger] connects(adj, p, s as int, v);
    let inside = |x: int| 0 <= x < adj.len() && t.seen[x];
    assert forall|a: int, b: int| inside(a) && #[trigger] has_edge(adj, a, b) implies inside(b) by {
        let i = choose|i: int| 0 <= i < adj[a].len() && #[trigger] adj[a][i] == b;
        assert(t.seen[adj[a][i] as int]);
    }
    lemma_closed_set_holds_reachable(adj, inside, p, p.len() - 1);
}

/// The position of the topmost candidate whose target has not been numbered,
/// or -1 if there is none.
pub open spec fn top_unseen(st: Seq<(usize, usize)>, seen: Seq<bool>) -> int
    decreases st.len(),
{
    if st.len() == 0 {
        -1
    } else if !seen[st.last().0 as int] {
        st.len() - 1
    } else {
        top_unseen(st.drop_last(), seen)
    }
}

/// The candidates a vertex `from` puts on the stack: one for each entry of
/// its neighbour list that has not been numbered, in the order of the list.
pub open spec fn unseen_from(edges: Seq<usize>, seen: Seq<bool>, from: usize) -> Seq<(usize, usize)>
    decreases edges.len(),
{
    if edges.len() == 0 {
        Seq::empty()
    } else if !seen[edges.last() as int] {
        unseen_from(edges.drop_last(), seen, from).push((edges.last(), from))
    } else {
        unseen_from(edges.drop_last(), seen, from)
    }
}

} // verus!
