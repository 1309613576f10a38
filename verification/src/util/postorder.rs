//! The invariant of a depth-first traversal that yields every vertex after
//! the vertices first reached through it.
//!
//! The traversal keeps the path from the start to the vertex it is at, a
//! stack of candidates `(target, depth)` for the next step, and a depth to
//! which the path has to be yielded, deepest first, before a candidate of
//! that depth may be taken up.

use crate::util::dfs::{lemma_distinct_bounded, unseen_from};
use crate::util::forest::{
    ancestor, lemma_ancestor_self, lemma_ancestor_unfold, lemma_top_fixed, lemma_walk_step, walk,
};
use crate::util::paths::{
    closed_adj, connects, has_edge, lemma_closed_set_holds_reachable, lemma_edge_at,
    lemma_path_single, lemma_reachable_step, reachable,
};
use vstd::prelude::*;

verus! {

/// The vertex at position `k` of the path was reached from the one before.
pub open spec fn hangs(path: Seq<usize>, par: Seq<usize>, k: int) -> bool {
    par[path[k] as int] == path[k - 1]
}

/// The path holds distinct visited vertices, begins at the start, and every
/// later vertex was reached from the one before it.
pub open spec fn path_ok(n: nat, s: usize, seen: Seq<bool>, path: Seq<usize>, par: Seq<usize>) -> bool {
    &&& forall|k: int| 0 <= k < path.len() ==> (#[trigger] path[k]) < n && seen[path[k] as int]
    &&& forall|k: int, l: int| 0 <= k < l < path.len() ==> path[k] != path[l]
    &&& path.len() > 0 ==> path[0] == s
    &&& forall|k: int| 1 <= k < path.len() ==> #[trigger] hangs(path, par, k)
}

/// The vertex from which the vertex yielded at position `i` was reached is
/// still on the path, or is yielded later.
pub open spec fn parent_later(path: Seq<usize>, out: Seq<usize>, par: Seq<usize>, i: int) -> bool {
    path.contains(par[out[i] as int]) || exists|j: int|
        i < j < out.len() && #[trigger] out[j] == par[out[i] as int]
}

/// What has been yielded: distinct visited vertices off the path, all of
/// whose neighbours are visited, each yielded before the vertex it was
/// reached from.
pub open spec fn out_ok(
    adj: Seq<Seq<usize>>,
    s: usize,
    seen: Seq<bool>,
    path: Seq<usize>,
    out: Seq<usize>,
    par: Seq<usize>,
) -> bool {
    &&& forall|i: int| 0 <= i < out.len() ==> (#[trigger] out[i]) < adj.len() && seen[out[i] as int]
    &&& forall|i: int, j: int| 0 <= i < j < out.len() ==> out[i] != out[j]
    &&& forall|i: int, k: int| 0 <= i < out.len() && 0 <= k < path.len() ==> out[i] != path[k]
    &&& forall|i: int, e: int|
        0 <= i < out.len() && 0 <= e < adj[out[i] as int].len() ==> seen[(
        #[trigger] adj[out[i] as int][e]) as int]
    &&& forall|i: int| 0 <= i < out.len() && out[i] != s ==> #[trigger] parent_later(path, out, par, i)
}

/// Every visited vertex is on the path or has been yielded, and can be
/// reached from the start.
pub open spec fn cover_ok(
    adj: Seq<Seq<usize>>,
    s: usize,
    seen: Seq<bool>,
    path: Seq<usize>,
    out: Seq<usize>,
) -> bool {
    forall|v: int|
        0 <= v < adj.len() && #[trigger] seen[v] ==> (path.contains(v as usize) || out.contains(
            v as usize,
        )) && reachable(adj, s as int, v)
}

/// The candidate at `i` hangs by an edge under the vertex at its depth on the
/// path, and is no deeper than the depth of the traversal.
pub open spec fn slot_ok(
    adj: Seq<Seq<usize>>,
    path: Seq<usize>,
    depth: nat,
    st: Seq<(usize, usize)>,
    i: int,
) -> bool {
    &&& st[i].0 < adj.len()
    &&& 1 <= st[i].1 <= depth
    &&& has_edge(adj, path[st[i].1 - 1] as int, st[i].0 as int)
}

/// Before the start is visited the stack holds it alone; afterwards every
/// candidate is as `slot_ok` says, and deeper candidates stand higher.
pub open spec fn stack_ok(
    adj: Seq<Seq<usize>>,
    s: usize,
    seen: Seq<bool>,
    path: Seq<usize>,
    out: Seq<usize>,
    depth: nat,
    st: Seq<(usize, usize)>,
) -> bool {
    &&& depth <= path.len()
    &&& !seen[s as int] ==> st == seq![(s, 0usize)] && path.len() == 0 && out.len() == 0 && depth
        == 0
    &&& seen[s as int] ==> forall|i: int| 0 <= i < st.len() ==> #[trigger] slot_ok(adj, path, depth, st, i)
    &&& forall|i: int, j: int| 0 <= i < j < st.len() ==> (#[trigger] st[i]).1 <= (#[trigger] st[j]).1
}

/// The candidate `(c, d)` stands on the stack.
pub open spec fn waits(st: Seq<(usize, usize)>, c: usize, d: int) -> bool {
    exists|i: int| 0 <= i < st.len() && #[trigger] st[i] == (c, d as usize)
}

/// Every neighbour of a vertex on the path is visited or stands on the stack
/// as a candidate one deeper than the vertex. If `expanding`, of the last
/// vertex of the path only the first `upto` neighbours have been looked at.
pub open spec fn pending_ok(
    adj: Seq<Seq<usize>>,
    seen: Seq<bool>,
    path: Seq<usize>,
    st: Seq<(usize, usize)>,
    expanding: bool,
    upto: int,
) -> bool {
    forall|k: int, e: int|
        0 <= k < path.len() && 0 <= e < (if expanding && k == path.len() - 1 {
            upto
        } else {
            adj[path[k] as int].len() as int
        }) ==> seen[(#[trigger] adj[path[k] as int][e]) as int] || waits(
            st,
            adj[path[k] as int][e],
            k + 1,
        )
}

/// Every visited vertex but the start was reached over an edge from a
/// visited vertex.
pub open spec fn tree_links(adj: Seq<Seq<usize>>, s: usize, seen: Seq<bool>, par: Seq<usize>) -> bool {
    forall|v: int|
        0 <= v < adj.len() && seen[v] && v != s ==> (#[trigger] par[v]) < adj.len()
            && seen[par[v] as int] && has_edge(adj, par[v] as int, v)
}

/// The neighbour at `e` of the vertex yielded at position `i` was yielded
/// before, or the vertex was reached through it.
pub open spec fn earlier_or_above(
    adj: Seq<Seq<usize>>,
    out: Seq<usize>,
    par: Seq<usize>,
    i: int,
    e: int,
) -> bool {
    (exists|j: int| 0 <= j < i && #[trigger] out[j] == adj[out[i] as int][e]) || ancestor(
        par,
        adj[out[i] as int][e] as int,
        out[i] as int,
    )
}

/// Every edge from a yielded vertex leads to a vertex yielded before it or
/// to one through which it was reached.
pub open spec fn edges_back(adj: Seq<Seq<usize>>, out: Seq<usize>, par: Seq<usize>) -> bool {
    forall|i: int, e: int|
        0 <= i < out.len() && 0 <= e < adj[out[i] as int].len() ==> #[trigger] earlier_or_above(
            adj,
            out,
            par,
            i,
            e,
        )
}

/// `out` is what a depth-first walk from `s` yields in postorder, and `par`
/// names for each vertex the one it was reached through: `s` is its own
/// parent, and every vertex of `out` was reached through `s`; `out` holds what
/// can be reached from `s`, each vertex once; every vertex but `s` was
/// reached over an edge; a vertex comes before every vertex through which it
/// was reached, so that `s` comes last; and every edge from a vertex leads to
/// a vertex that comes before it or to one through which it was reached.
pub open spec fn is_postorder(adj: Seq<Seq<usize>>, s: usize, out: Seq<usize>, par: Seq<usize>) -> bool {
    &&& par.len() == adj.len()
    &&& s < adj.len()
    &&& par[s as int] == s
    &&& forall|i: int| 0 <= i < out.len() ==> ancestor(par, s as int, (#[trigger] out[i]) as int)
    &&& forall|i: int| 0 <= i < out.len() ==> (#[trigger] out[i]) < adj.len()
    &&& forall|i: int, j: int| 0 <= i < j < out.len() ==> out[i] != out[j]
    &&& forall|v: usize|
        v < adj.len() ==> (out.contains(v) <==> #[trigger] reachable(adj, s as int, v as int))
    &&& forall|i: int|
        0 <= i < out.len() && out[i] != s ==> has_edge(
            adj,
            (#[trigger] par[out[i] as int]) as int,
            out[i] as int,
        )
    &&& forall|i: int, a: int|
        0 <= i < out.len() && #[trigger] ancestor(par, a, out[i] as int) && a != out[i]
            ==> exists|j: int| i < j < out.len() && out[j] == a
    &&& edges_back(adj, out, par)
}

/// The invariant of the traversal.
pub open spec fn post_inv(
    adj: Seq<Seq<usize>>,
    s: usize,
    seen: Seq<bool>,
    path: Seq<usize>,
    st: Seq<(usize, usize)>,
    depth: nat,
    out: Seq<usize>,
    par: Seq<usize>,
    expanding: bool,
    upto: int,
) -> bool {
    &&& closed_adj(adj)
    &&& s < adj.len()
    &&& adj.len() <= usize::MAX
    &&& seen.len() == adj.len()
    &&& par.len() == adj.len()
    &&& par[s as int] == s
    &&& path_ok(adj.len(), s, seen, path, par)
    &&& out_ok(adj, s, seen, path, out, par)
    &&& cover_ok(adj, s, seen, path, out)
    &&& stack_ok(adj, s, seen, path, out, depth, st)
    &&& pending_ok(adj, seen, path, st, expanding, upto)
    &&& tree_links(adj, s, seen, par)
    &&& edges_back(adj, out, par)
}

/// Changing the parent of a vertex that has not been visited changes no walk
/// from a visited vertex, and such a walk stays among visited vertices.
pub proof fn lemma_walk_same(
    adj: Seq<Seq<usize>>,
    s: usize,
    seen: Seq<bool>,
    par: Seq<usize>,
    c: int,
    q: usize,
    x: int,
    k: nat,
)
    requires
        tree_links(adj, s, seen, par),
        seen.len() == adj.len(),
        par.len() == adj.len(),
        s < adj.len(),
        par[s as int] == s,
        0 <= c < adj.len(),
        !seen[c],
        0 <= x < adj.len(),
        seen[x],
    ensures
        walk(par.update(c, q), x, k) == walk(par, x, k),
        0 <= walk(par, x, k) < adj.len(),
        seen[walk(par, x, k)],
    decreases k,
{
    if k > 0 {
        let up = par[x];
        assert(par.update(c, q)[x] == up);
        if x != s {
            assert(seen[par[x] as int]);
        }
        lemma_walk_same(adj, s, seen, par, c, q, up as int, (k - 1) as nat);
    }
}

/// A vertex of the path was reached through every vertex before it on the
/// path.
pub proof fn lemma_path_above(n: nat, s: usize, seen: Seq<bool>, path: Seq<usize>, par: Seq<usize>, l: int, k: int)
    requires
        path_ok(n, s, seen, path, par),
        par.len() == n,
        0 <= l <= k < path.len(),
    ensures
        ancestor(par, path[l] as int, path[k] as int),
    decreases k - l,
{
    if l == k {
        lemma_ancestor_self(par, path[k] as int);
    } else {
        assert(hangs(path, par, k));
        lemma_path_above(n, s, seen, path, par, l, k - 1);
        assert(path[k] < n);
        lemma_ancestor_unfold(par, path[l] as int, path[k] as int);
    }
}

/// How many vertices have not been visited.
pub open spec fn count_unseen(seen: Seq<bool>) -> nat
    decreases seen.len(),
{
    if seen.len() == 0 {
        0
    } else {
        count_unseen(seen.drop_last()) + (if seen.last() {
            0nat
        } else {
            1nat
        })
    }
}

/// Visiting a vertex leaves one vertex less to visit.
pub proof fn lemma_count_unseen(seen: Seq<bool>, c: int)
    requires
        0 <= c < seen.len(),
        !seen[c],
    ensures
        count_unseen(seen.update(c, true)) + 1 == count_unseen(seen),
    decreases seen.len(),
{
    let s2 = seen.update(c, true);
    if c == seen.len() - 1 {
        assert(s2.drop_last() =~= seen.drop_last());
    } else {
        assert(s2.drop_last() =~= seen.drop_last().update(c, true));
        lemma_count_unseen(seen.drop_last(), c);
    }
}

/// The invariant holds before the first step.
pub proof fn lemma_post_initial(adj: Seq<Seq<usize>>, s: usize)
    requires
        closed_adj(adj),
        s < adj.len(),
        adj.len() <= usize::MAX,
    ensures
        post_inv(
            adj,
            s,
            Seq::new(adj.len(), |v: int| false),
            Seq::empty(),
            seq![(s, 0usize)],
            0,
            Seq::empty(),
            Seq::new(adj.len(), |v: int| v as usize),
            false,
            0,
        ),
{
}

/// The path is no longer than the graph has vertices.
pub proof fn lemma_path_bounded(n: nat, s: usize, seen: Seq<bool>, path: Seq<usize>, par: Seq<usize>)
    requires
        path_ok(n, s, seen, path, par),
    ensures
        path.len() <= n,
{
    lemma_distinct_bounded(path, n);
}

/// Dropping a candidate whose target is visited already.
pub proof fn lemma_post_stale(
    adj: Seq<Seq<usize>>,
    s: usize,
    seen: Seq<bool>,
    path: Seq<usize>,
    st: Seq<(usize, usize)>,
    depth: nat,
    out: Seq<usize>,
    par: Seq<usize>,
)
    requires
        post_inv(adj, s, seen, path, st, depth, out, par, false, 0),
        st.len() > 0,
        st.last().0 < adj.len(),
        seen[st.last().0 as int],
    ensures
        post_inv(adj, s, seen, path, st.drop_last(), depth, out, par, false, 0),
{
    let st2 = st.drop_last();
    let h = st2.len() as int;
    assert(st[h] == st.last());
    assert(seen[s as int]) by {
        if !seen[s as int] {
            assert(st[0] == (s, 0usize));
        }
    }
    assert forall|i: int| 0 <= i < st2.len() implies #[trigger] slot_ok(adj, path, depth, st2, i) by {
        assert(slot_ok(adj, path, depth, st, i));
    }
    assert forall|i: int, j: int| 0 <= i < j < st2.len() implies (#[trigger] st2[i]).1 <= (
    #[trigger] st2[j]).1 by {
        assert(st2[i] == st[i] && st2[j] == st[j]);
    }
    assert forall|k: int, e: int|
        0 <= k < path.len() && 0 <= e < adj[path[k] as int].len() implies seen[(
    #[trigger] adj[path[k] as int][e]) as int] || waits(st2, adj[path[k] as int][e], k + 1) by {
        let y = adj[path[k] as int][e];
        if !seen[y as int] {
            let i = choose|i: int| 0 <= i < st.len() && #[trigger] st[i] == (y, (k + 1) as usize);
            assert(i != h);
            assert(st2[i] == (y, (k + 1) as usize));
        }
    }
}

/// Putting off the top candidate, which is shallower than the path is long:
/// the path has to be yielded down to the depth of the candidate first.
pub proof fn lemma_post_defer(
    adj: Seq<Seq<usize>>,
    s: usize,
    seen: Seq<bool>,
    path: Seq<usize>,
    st: Seq<(usize, usize)>,
    depth: nat,
    out: Seq<usize>,
    par: Seq<usize>,
)
    requires
        post_inv(adj, s, seen, path, st, depth, out, par, false, 0),
        st.len() > 0,
        st.last().1 < path.len(),
    ensures
        post_inv(adj, s, seen, path, st, st.last().1 as nat, out, par, false, 0),
        st.last().1 <= depth,
{
    let h = st.len() - 1;
    let d2 = st.last().1 as nat;
    assert(st[h] == st.last());
    if seen[s as int] {
        assert(slot_ok(adj, path, depth, st, h));
        assert forall|i: int| 0 <= i < st.len() implies #[trigger] slot_ok(adj, path, d2, st, i) by {
            assert(slot_ok(adj, path, depth, st, i));
            if i < h {
                assert(st[i].1 <= st[h].1);
            }
        }
    } else {
        assert(st[0] == (s, 0usize));
    }
}

/// With an empty stack the whole path is left to yield.
pub proof fn lemma_post_unwind(
    adj: Seq<Seq<usize>>,
    s: usize,
    seen: Seq<bool>,
    path: Seq<usize>,
    depth: nat,
    out: Seq<usize>,
    par: Seq<usize>,
)
    requires
        post_inv(adj, s, seen, path, Seq::<(usize, usize)>::empty(), depth, out, par, false, 0),
    ensures
        post_inv(adj, s, seen, path, Seq::<(usize, usize)>::empty(), 0, out, par, false, 0),
        seen[s as int],
{
    let st = Seq::<(usize, usize)>::empty();
    if !seen[s as int] {
        assert(st.len() == seq![(s, 0usize)].len());
    }
}

/// Yielding the last vertex of the path while the path is longer than the
/// depth of the traversal.
pub proof fn lemma_post_yield(
    adj: Seq<Seq<usize>>,
    s: usize,
    seen: Seq<bool>,
    path: Seq<usize>,
    st: Seq<(usize, usize)>,
    depth: nat,
    out: Seq<usize>,
    par: Seq<usize>,
)
    requires
        post_inv(adj, s, seen, path, st, depth, out, par, false, 0),
        path.len() > depth,
    ensures
        post_inv(adj, s, seen, path.drop_last(), st, depth, out.push(path.last()), par, false, 0),
        path.last() < adj.len(),
        !out.contains(path.last()),
{
    let k = path.len() - 1;
    let x = path.last();
    let path2 = path.drop_last();
    let out2 = out.push(x);
    let n = adj.len();
    lemma_path_bounded(n, s, seen, path, par);
    assert(path[k] == x);
    assert(seen[s as int]) by {
        assert(seen[path[0] as int]);
    }
    assert forall|l: int| 0 <= l < path2.len() implies path2[l] == path[l] by {}
    assert(path_ok(n, s, seen, path2, par)) by {
        assert forall|l: int| 1 <= l < path2.len() implies #[trigger] hangs(path2, par, l) by {
            assert(hangs(path, par, l));
        }
    }
    assert(!out.contains(x)) by {
        if out.contains(x) {
            let i = choose|i: int| 0 <= i < out.len() && out[i] == x;
            assert(out[i] != path[k]);
        }
    }
    // every neighbour of the vertex yielded is visited
    assert forall|e: int| 0 <= e < adj[x as int].len() implies seen[(
    #[trigger] adj[x as int][e]) as int] by {
        let y = adj[path[k] as int][e];
        if !seen[y as int] {
            assert(waits(st, y, k + 1));
            let i = choose|i: int| 0 <= i < st.len() && #[trigger] st[i] == (y, (k + 1) as usize);
            assert(slot_ok(adj, path, depth, st, i));
            assert(false);
        }
    }
    assert(out_ok(adj, s, seen, path2, out2, par)) by {
        assert forall|i: int| 0 <= i < out2.len() implies (#[trigger] out2[i]) < adj.len()
            && seen[out2[i] as int] by {
            if i < out.len() {
                assert(out2[i] == out[i]);
            }
        }
        assert forall|i: int, j: int| 0 <= i < j < out2.len() implies out2[i] != out2[j] by {
            assert(out2[i] == out[i]);
            if j < out.len() {
                assert(out2[j] == out[j]);
            } else {
                assert(out[i] != path[k]);
            }
        }
        assert forall|i: int, l: int| 0 <= i < out2.len() && 0 <= l < path2.len() implies out2[i]
            != path2[l] by {
            if i < out.len() {
                assert(out2[i] == out[i]);
                assert(out[i] != path[l]);
            } else {
                assert(path[l] != path[k]);
            }
        }
        assert forall|i: int, e: int|
            0 <= i < out2.len() && 0 <= e < adj[out2[i] as int].len() implies seen[(
        #[trigger] adj[out2[i] as int][e]) as int] by {
            if i < out.len() {
                assert(out2[i] == out[i]);
            }
        }
        assert forall|i: int| 0 <= i < out2.len() && out2[i] != s implies #[trigger] parent_later(
            path2,
            out2,
            par,
            i,
        ) by {
            if i < out.len() {
                assert(out2[i] == out[i]);
                assert(parent_later(path, out, par, i));
                let q = par[out[i] as int];
                if path.contains(q) {
                    let l = choose|l: int| 0 <= l < path.len() && path[l] == q;
                    if l == k {
                        assert(out2[out.len() as int] == q);
                    } else {
                        assert(path2[l] == q);
                    }
                } else {
                    let j = choose|j: int| i < j < out.len() && #[trigger] out[j] == q;
                    assert(out2[j] == q);
                }
            } else {
                assert(k >= 1);
                assert(hangs(path, par, k));
                assert(path2[k - 1] == par[x as int]);
            }
        }
    }
    assert(cover_ok(adj, s, seen, path2, out2)) by {
        assert forall|v: int| 0 <= v < adj.len() && #[trigger] seen[v] implies (path2.contains(
            v as usize,
        ) || out2.contains(v as usize)) && reachable(adj, s as int, v) by {
            if path.contains(v as usize) {
                let l = choose|l: int| 0 <= l < path.len() && path[l] == v as usize;
                if l == k {
                    assert(out2[out.len() as int] == v as usize);
                } else {
                    assert(path2[l] == v as usize);
                }
            } else {
                let i = choose|i: int| 0 <= i < out.len() && out[i] == v as usize;
                assert(out2[i] == v as usize);
            }
        }
    }
    assert(stack_ok(adj, s, seen, path2, out2, depth, st)) by {
        assert forall|i: int| 0 <= i < st.len() implies #[trigger] slot_ok(adj, path2, depth, st, i) by {
            assert(slot_ok(adj, path, depth, st, i));
            assert(path2[st[i].1 - 1] == path[st[i].1 - 1]);
        }
    }
    assert forall|l: int, e: int|
        0 <= l < path2.len() && 0 <= e < adj[path2[l] as int].len() implies seen[(
    #[trigger] adj[path2[l] as int][e]) as int] || waits(st, adj[path2[l] as int][e], l + 1) by {
        assert(path2[l] == path[l]);
    }
    assert forall|i: int, e: int|
        0 <= i < out2.len() && 0 <= e < adj[out2[i] as int].len() implies #[trigger] earlier_or_above(
        adj,
        out2,
        par,
        i,
        e,
    ) by {
        if i < out.len() {
            assert(out2[i] == out[i]);
            assert(earlier_or_above(adj, out, par, i, e));
            if exists|j: int| 0 <= j < i && #[trigger] out[j] == adj[out[i] as int][e] {
                let j = choose|j: int| 0 <= j < i && #[trigger] out[j] == adj[out[i] as int][e];
                assert(out2[j] == adj[out2[i] as int][e]);
            }
        } else {
            let y = adj[x as int][e];
            assert(seen[y as int]);
            assert(y < adj.len());
            if path.contains(y) {
                let l = choose|l: int| 0 <= l < path.len() && path[l] == y;
                lemma_path_above(n, s, seen, path, par, l, k);
            } else {
                assert(out.contains(y));
                let j = choose|j: int| 0 <= j < out.len() && out[j] == y;
                assert(out2[j] == y);
            }
        }
    }
}

/// Visiting the target of the top candidate, which is as deep as the path is
/// long: the target joins the path, reached from the vertex that was last.
pub proof fn lemma_post_enter(
    adj: Seq<Seq<usize>>,
    s: usize,
    seen: Seq<bool>,
    path: Seq<usize>,
    st: Seq<(usize, usize)>,
    depth: nat,
    out: Seq<usize>,
    par: Seq<usize>,
)
    requires
        post_inv(adj, s, seen, path, st, depth, out, par, false, 0),
        st.len() > 0,
        st.last().0 < adj.len(),
        !seen[st.last().0 as int],
        path.len() <= st.last().1,
    ensures
        path.len() == st.last().1,
        post_inv(
            adj,
            s,
            seen.update(st.last().0 as int, true),
            path.push(st.last().0),
            st.drop_last(),
            path.len() + 1,
            out,
            par.update(
                st.last().0 as int,
                if path.len() == 0 {
                    st.last().0
                } else {
                    path.last()
                },
            ),
            true,
            0,
        ),
{
    let c = st.last().0;
    let dd = st.last().1;
    let st2 = st.drop_last();
    let h = st2.len() as int;
    let n = adj.len();
    lemma_path_bounded(n, s, seen, path, par);
    assert(st[h] == st.last());
    let q = if path.len() == 0 {
        c
    } else {
        path.last()
    };
    let seen2 = seen.update(c as int, true);
    let path2 = path.push(c);
    let par2 = par.update(c as int, q);
    let depth2 = path.len() + 1;
    if seen[s as int] {
        assert(slot_ok(adj, path, depth, st, h));
        assert(path.len() >= 1);
        assert(path[dd - 1] == path.last());
        assert(c != s);
    } else {
        assert(st[0] == (s, 0usize));
    }
    assert(path.len() == dd);
    assert forall|l: int| 0 <= l < path.len() implies path2[l] == path[l] && path[l] != c by {
        assert(seen[path[l] as int]);
    }
    assert(path_ok(n, s, seen2, path2, par2)) by {
        assert forall|l: int| 1 <= l < path2.len() implies #[trigger] hangs(path2, par2, l) by {
            if l < path.len() {
                assert(hangs(path, par, l));
            }
        }
        assert forall|l: int, m: int| 0 <= l < m < path2.len() implies path2[l] != path2[m] by {}
    }
    assert(out_ok(adj, s, seen2, path2, out, par2)) by {
        assert forall|i: int| 0 <= i < out.len() implies out[i] != c by {
            assert(seen[out[i] as int]);
        }
        assert forall|i: int, l: int| 0 <= i < out.len() && 0 <= l < path2.len() implies out[i]
            != path2[l] by {
            if l < path.len() {
                assert(out[i] != path[l]);
            }
        }
        assert forall|i: int| 0 <= i < out.len() && out[i] != s implies #[trigger] parent_later(
            path2,
            out,
            par2,
            i,
        ) by {
            assert(parent_later(path, out, par, i));
            let above = par[out[i] as int];
            if path.contains(above) {
                let l = choose|l: int| 0 <= l < path.len() && path[l] == above;
                assert(path2[l] == above);
            }
        }
        assert forall|i: int, e: int|
            0 <= i < out.len() && 0 <= e < adj[out[i] as int].len() implies seen2[(
        #[trigger] adj[out[i] as int][e]) as int] by {
            assert(seen[adj[out[i] as int][e] as int]);
        }
    }
    assert(cover_ok(adj, s, seen2, path2, out)) by {
        assert forall|v: int| 0 <= v < adj.len() && #[trigger] seen2[v] implies (path2.contains(
            v as usize,
        ) || out.contains(v as usize)) && reachable(adj, s as int, v) by {
            if v == c {
                assert(path2[path.len() as int] == c);
                if seen[s as int] {
                    assert(seen[path[dd - 1] as int]);
                    lemma_reachable_step(adj, s as int, path[dd - 1] as int, c as int);
                } else {
                    lemma_path_single(adj, s as int);
                }
            } else {
                assert(seen[v]);
                if path.contains(v as usize) {
                    let l = choose|l: int| 0 <= l < path.len() && path[l] == v as usize;
                    assert(path2[l] == v as usize);
                }
            }
        }
    }
    assert(stack_ok(adj, s, seen2, path2, out, depth2 as nat, st2)) by {
        assert forall|i: int| 0 <= i < st2.len() implies #[trigger] slot_ok(
            adj,
            path2,
            depth2 as nat,
            st2,
            i,
        ) by {
            assert(st2[i] == st[i]);
            if seen[s as int] {
                assert(slot_ok(adj, path, depth, st, i));
                assert(path2[st[i].1 - 1] == path[st[i].1 - 1]);
            }
        }
        assert forall|i: int, j: int| 0 <= i < j < st2.len() implies (#[trigger] st2[i]).1 <= (
        #[trigger] st2[j]).1 by {
            assert(st2[i] == st[i] && st2[j] == st[j]);
        }
    }
    assert forall|l: int, e: int|
        0 <= l < path2.len() && 0 <= e < (if l == path2.len() - 1 {
            0
        } else {
            adj[path2[l] as int].len() as int
        }) implies seen2[(#[trigger] adj[path2[l] as int][e]) as int] || waits(
        st2,
        adj[path2[l] as int][e],
        l + 1,
    ) by {
        assert(path2[l] == path[l]);
        let y = adj[path[l] as int][e];
        if !seen[y as int] {
            let i = choose|i: int| 0 <= i < st.len() && #[trigger] st[i] == (y, (l + 1) as usize);
            if i != h {
                assert(st2[i] == (y, (l + 1) as usize));
            }
        }
    }
    assert forall|v: int| 0 <= v < adj.len() && seen2[v] && v != s implies (#[trigger] par2[v])
        < adj.len() && seen2[par2[v] as int] && has_edge(adj, par2[v] as int, v) by {
        if v == c {
            assert(seen[s as int]);
            assert(path[dd - 1] == q);
        } else {
            assert(par2[v] == par[v]);
            assert(seen[par[v] as int]);
        }
    }
    assert forall|i: int, e: int|
        0 <= i < out.len() && 0 <= e < adj[out[i] as int].len() implies #[trigger] earlier_or_above(
        adj,
        out,
        par2,
        i,
        e,
    ) by {
        assert(earlier_or_above(adj, out, par, i, e));
        let y = adj[out[i] as int][e] as int;
        if ancestor(par, y, out[i] as int) {
            let k = choose|k: nat| #[trigger] walk(par, out[i] as int, k) == y;
            lemma_walk_same(adj, s, seen, par, c as int, q, out[i] as int, k);
            assert(walk(par2, out[i] as int, k) == y);
        }
    }
}

/// Looking at the next neighbour of the vertex visited last, and putting a
/// candidate for it on the stack if it has not been visited.
pub proof fn lemma_post_push(
    adj: Seq<Seq<usize>>,
    s: usize,
    seen: Seq<bool>,
    path: Seq<usize>,
    st: Seq<(usize, usize)>,
    out: Seq<usize>,
    par: Seq<usize>,
    i: int,
)
    requires
        path.len() > 0,
        path.len() <= usize::MAX,
        post_inv(adj, s, seen, path, st, path.len(), out, par, true, i),
        0 <= i < adj[path.last() as int].len(),
    ensures
        adj[path.last() as int][i] < adj.len(),
        seen[adj[path.last() as int][i] as int] ==> post_inv(
            adj,
            s,
            seen,
            path,
            st,
            path.len(),
            out,
            par,
            true,
            i + 1,
        ),
        !seen[adj[path.last() as int][i] as int] ==> post_inv(
            adj,
            s,
            seen,
            path,
            st.push((adj[path.last() as int][i], path.len() as usize)),
            path.len(),
            out,
            par,
            true,
            i + 1,
        ),
{
    let k = path.len() - 1;
    let c = path.last();
    let y = adj[c as int][i];
    assert(path[k] == c);
    assert(c < adj.len());
    lemma_edge_at(adj, c as int, i);
    assert(seen[s as int]) by {
        assert(seen[path[0] as int]);
    }
    if seen[y as int] {
        assert forall|l: int, e: int|
            0 <= l < path.len() && 0 <= e < (if l == path.len() - 1 {
                i + 1
            } else {
                adj[path[l] as int].len() as int
            }) implies seen[(#[trigger] adj[path[l] as int][e]) as int] || waits(
            st,
            adj[path[l] as int][e],
            l + 1,
        ) by {}
    } else {
        let st2 = st.push((y, path.len() as usize));
        let h = st.len() as int;
        assert(st2[h] == (y, path.len() as usize));
        assert forall|j: int| 0 <= j < st.len() implies st2[j] == st[j] by {}
        assert forall|l: int, e: int|
            0 <= l < path.len() && 0 <= e < (if l == path.len() - 1 {
                i + 1
            } else {
                adj[path[l] as int].len() as int
            }) implies seen[(#[trigger] adj[path[l] as int][e]) as int] || waits(
            st2,
            adj[path[l] as int][e],
            l + 1,
        ) by {
            let z = adj[path[l] as int][e];
            if l == k && e == i {
                assert(waits(st2, z, l + 1));
            } else if !seen[z as int] {
                let j = choose|j: int| 0 <= j < st.len() && #[trigger] st[j] == (z, (l + 1) as usize);
                assert(st2[j] == (z, (l + 1) as usize));
            }
        }
        assert(stack_ok(adj, s, seen, path, out, path.len(), st2)) by {
            assert forall|j: int| 0 <= j < st2.len() implies #[trigger] slot_ok(
                adj,
                path,
                path.len(),
                st2,
                j,
            ) by {
                if j < st.len() {
                    assert(slot_ok(adj, path, path.len(), st, j));
                }
            }
            assert forall|j: int, m: int| 0 <= j < m < st2.len() implies (#[trigger] st2[j]).1 <= (
            #[trigger] st2[m]).1 by {
                assert(slot_ok(adj, path, path.len(), st, j));
                if m < st.len() {
                    assert(st2[j] == st[j] && st2[m] == st[m]);
                }
            }
        }
    }
}

/// Once stack and path are empty, what has been yielded is what can be
/// reached from the start.
pub proof fn lemma_post_done(
    adj: Seq<Seq<usize>>,
    s: usize,
    seen: Seq<bool>,
    depth: nat,
    out: Seq<usize>,
    par: Seq<usize>,
    v: int,
)
    requires
        post_inv(
            adj,
            s,
            seen,
            Seq::<usize>::empty(),
            Seq::<(usize, usize)>::empty(),
            depth,
            out,
            par,
            false,
            0,
        ),
        0 <= v < adj.len(),
    ensures
        out.contains(v as usize) <==> reachable(adj, s as int, v),
{
    let path = Seq::<usize>::empty();
    let st = Seq::<(usize, usize)>::empty();
    if !seen[s as int] {
        assert(st.len() == seq![(s, 0usize)].len());
    }
    if out.contains(v as usize) {
        let i = choose|i: int| 0 <= i < out.len() && out[i] == v as usize;
        assert(seen[out[i] as int]);
    }
    if reachable(adj, s as int, v) {
        let p = choose|p: Seq<int>| #[trigger] connects(adj, p, s as int, v);
        let inside = |x: int| 0 <= x < adj.len() && seen[x];
        assert forall|a: int, b: int| inside(a) && #[trigger] has_edge(adj, a, b) implies inside(
            b,
        ) by {
            let e = choose|e: int| 0 <= e < adj[a].len() && #[trigger] adj[a][e] == b;
            assert(seen[a]);
            assert(out.contains(a as usize));
            let i = choose|i: int| 0 <= i < out.len() && out[i] == a as usize;
            assert(seen[adj[out[i] as int][e] as int]);
        }
        lemma_closed_set_holds_reachable(adj, inside, p, p.len() - 1);
        assert(seen[v]);
    }
}

/// Once stack and path are empty, every vertex through which a yielded
/// vertex was reached, directly or by way of others, was yielded after it.
pub proof fn lemma_post_descendants_first(
    adj: Seq<Seq<usize>>,
    s: usize,
    seen: Seq<bool>,
    depth: nat,
    out: Seq<usize>,
    par: Seq<usize>,
    i: int,
    k: nat,
) -> (j: int)
    requires
        post_inv(
            adj,
            s,
            seen,
            Seq::<usize>::empty(),
            Seq::<(usize, usize)>::empty(),
            depth,
            out,
            par,
            false,
            0,
        ),
        0 <= i < out.len(),
        walk(par, out[i] as int, k) != out[i],
    ensures
        i < j < out.len(),
        out[j] == walk(par, out[i] as int, k),
    decreases k,
{
    let path = Seq::<usize>::empty();
    let v = out[i];
    assert(v < adj.len());
    if v == s {
        lemma_top_fixed(par, v as int, k);
    }
    assert(parent_later(path, out, par, i));
    let j1 = choose|j: int| i < j < out.len() && #[trigger] out[j] == par[out[i] as int];
    lemma_walk_step(par, v as int, (k - 1) as nat);
    if out[j1] == walk(par, v as int, k) {
        j1
    } else {
        lemma_post_descendants_first(adj, s, seen, depth, out, par, j1, (k - 1) as nat)
    }
}

/// A sequence of distinct indices below `n` that holds every index below `n`
/// has `n` elements.
pub proof fn lemma_full_count(out: Seq<usize>, n: nat)
    requires
        n <= usize::MAX,
        forall|i: int| 0 <= i < out.len() ==> #[trigger] out[i] < n,
        forall|i: int, j: int| 0 <= i < j < out.len() ==> out[i] != out[j],
        forall|v: usize| v < n ==> #[trigger] out.contains(v),
    ensures
        out.len() == n,
{
    lemma_distinct_bounded(out, n);
    let pos = Seq::new(n, |v: int| out.index_of(v as usize) as usize);
    assert forall|v: int| 0 <= v < n implies #[trigger] pos[v] < out.len() && out[pos[v] as int]
        == v by {
        assert(out.contains(v as usize));
        let i = out.index_of(v as usize);
        assert(0 <= i < out.len() && out[i] == v as usize);
    }
    assert forall|a: int, b: int| 0 <= a < b < pos.len() implies pos[a] != pos[b] by {
        assert(out[pos[a] as int] == a);
        assert(out[pos[b] as int] == b);
    }
    lemma_distinct_bounded(pos, out.len());
}

/// The state of the walk: which vertices are visited, the path from the
/// start, the candidates for the next step with their depths, and the depth
/// down to which the path is to be yielded.
pub struct Cursor {
    pub seen: Seq<bool>,
    pub path: Seq<usize>,
    pub st: Seq<(usize, usize)>,
    pub depth: nat,
}

/// The walk advanced as far as it goes before a vertex is yielded: while the
/// path is no longer than the depth asks, the topmost candidate is taken up.
/// A candidate whose target is visited is dropped; if it is shallower than
/// the path is long, the path has to be yielded down to its depth first; if
/// not, its target is visited, joins the path, and puts its own candidates on
/// the stack. Without candidates the whole path is left to yield.
pub open spec fn settle(adj: Seq<Seq<usize>>, c: Cursor) -> Cursor
    decreases count_unseen(c.seen), c.st.len(),
    via settle_decreases
{
    if c.path.len() > c.depth {
        c
    } else if c.st.len() == 0 {
        if c.path.len() == 0 {
            c
        } else {
            Cursor { seen: c.seen, path: c.path, st: c.st, depth: 0 }
        }
    } else if !(c.st.last().0 < c.seen.len()) || c.seen[c.st.last().0 as int] {
        settle(adj, Cursor { seen: c.seen, path: c.path, st: c.st.drop_last(), depth: c.depth })
    } else if c.path.len() > c.st.last().1 {
        Cursor { seen: c.seen, path: c.path, st: c.st, depth: c.st.last().1 as nat }
    } else {
        settle(
            adj,
            Cursor {
                seen: c.seen.update(c.st.last().0 as int, true),
                path: c.path.push(c.st.last().0),
                st: c.st.drop_last() + unseen_from(
                    adj[c.st.last().0 as int],
                    c.seen.update(c.st.last().0 as int, true),
                    (c.path.len() + 1) as usize,
                ),
                depth: c.path.len() + 1,
            },
        )
    }
}

#[via_fn]
proof fn settle_decreases(adj: Seq<Seq<usize>>, c: Cursor) {
    if c.st.len() > 0 && c.st.last().0 < c.seen.len() && !c.seen[c.st.last().0 as int] {
        lemma_count_unseen(c.seen, c.st.last().0 as int);
    }
}

/// What the cursor is after the next vertex has been asked for: the walk is
/// advanced, and the last vertex of the path, if the path is longer than the
/// depth asks, is taken off.
pub open spec fn after_next(adj: Seq<Seq<usize>>, c: Cursor) -> Cursor {
    let d = settle(adj, c);
    if d.path.len() > d.depth {
        Cursor { seen: d.seen, path: d.path.drop_last(), st: d.st, depth: d.depth }
    } else {
        d
    }
}

/// The vertex that is yielded next, if there is one left.
pub open spec fn next_of(adj: Seq<Seq<usize>>, c: Cursor) -> Option<usize> {
    let d = settle(adj, c);
    if d.path.len() > d.depth {
        Some(d.path.last())
    } else {
        None
    }
}

/// Once stack and path are empty, every yielded vertex was reached through
/// the start.
pub proof fn lemma_post_root_above(
    adj: Seq<Seq<usize>>,
    s: usize,
    seen: Seq<bool>,
    depth: nat,
    out: Seq<usize>,
    par: Seq<usize>,
    i: int,
)
    requires
        post_inv(
            adj,
            s,
            seen,
            Seq::<usize>::empty(),
            Seq::<(usize, usize)>::empty(),
            depth,
            out,
            par,
            false,
            0,
        ),
        0 <= i < out.len(),
    ensures
        ancestor(par, s as int, out[i] as int),
    decreases out.len() - i,
{
    let path = Seq::<usize>::empty();
    let v = out[i];
    assert(v < adj.len());
    if v == s {
        lemma_ancestor_self(par, v as int);
    } else {
        assert(parent_later(path, out, par, i));
        let j = choose|j: int| i < j < out.len() && #[trigger] out[j] == par[out[i] as int];
        lemma_post_root_above(adj, s, seen, depth, out, par, j);
        lemma_ancestor_unfold(par, s as int, v as int);
    }
}

/// In a postorder of a walk that has reached anything, the start comes last.
pub proof fn lemma_postorder_root_last(adj: Seq<Seq<usize>>, s: usize, out: Seq<usize>, par: Seq<usize>)
    requires
        is_postorder(adj, s, out, par),
        out.len() > 0,
    ensures
        out.last() == s,
{
    let i = out.len() - 1;
    assert(ancestor(par, s as int, out[i] as int));
    if out[i] != s {
        let j = choose|j: int| i < j < out.len() && out[j] == s as int;
    }
}

/// The cursor before the first step of a walk from `s` over `n` vertices.
pub open spec fn start_cursor(n: nat, s: usize) -> Cursor {
    Cursor { seen: Seq::new(n, |v: int| false), path: Seq::empty(), st: seq![(s, 0usize)], depth: 0 }
}

/// What the cursor yields, one vertex after the other, until nothing is left
/// or `fuel` vertices have been yielded.
pub open spec fn yields(adj: Seq<Seq<usize>>, c: Cursor, fuel: nat) -> Seq<usize>
    decreases fuel,
{
    if fuel == 0 {
        Seq::empty()
    } else {
        match next_of(adj, c) {
            None => Seq::empty(),
            Some(v) => seq![v] + yields(adj, after_next(adj, c), (fuel - 1) as nat),
        }
    }
}

} // verus!
