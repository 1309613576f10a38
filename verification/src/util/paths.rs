//! Paths, reachability and dominance in a directed graph given by adjacency
//! lists.

use vstd::prelude::*;

verus! {

/// Every listed neighbour is a vertex of the graph.
pub open spec fn closed_adj(adj: Seq<Seq<usize>>) -> bool {
    forall|v: int, i: int|
        0 <= v < adj.len() && 0 <= i < adj[v].len() ==> (#[trigger] adj[v][i]) < adj.len()
}

/// `b` is listed as a neighbour of `a`.
pub open spec fn has_edge(adj: Seq<Seq<usize>>, a: int, b: int) -> bool {
    0 <= a < adj.len() && exists|i: int| 0 <= i < adj[a].len() && #[trigger] adj[a][i] == b
}

/// The two lists describe the same edges, one from the source's side and one
/// from the target's.
pub open spec fn mirrored(out: Seq<Seq<usize>>, inc: Seq<Seq<usize>>) -> bool {
    &&& out.len() == inc.len()
    &&& forall|a: int, b: int| #[trigger] has_edge(out, a, b) <==> has_edge(inc, b, a)
}

/// An edge leads from position `i` of `p` to the next.
pub open spec fn edge_at(adj: Seq<Seq<usize>>, p: Seq<int>, i: int) -> bool {
    has_edge(adj, p[i], p[i + 1])
}

/// `p` is a non-empty walk along edges that starts inside the graph.
pub open spec fn is_path(adj: Seq<Seq<usize>>, p: Seq<int>) -> bool {
    &&& p.len() >= 1
    &&& 0 <= p[0] < adj.len()
    &&& forall|i: int| 0 <= i < p.len() - 1 ==> #[trigger] edge_at(adj, p, i)
}

/// `p` is a path from `a` to `b`.
pub open spec fn connects(adj: Seq<Seq<usize>>, p: Seq<int>, a: int, b: int) -> bool {
    is_path(adj, p) && p[0] == a && p.last() == b
}

/// Some path leads from `a` to `b`.
pub open spec fn reachable(adj: Seq<Seq<usize>>, a: int, b: int) -> bool {
    exists|p: Seq<int>| #[trigger] connects(adj, p, a, b)
}

/// `d` lies on every path from `s` to `v`.
pub open spec fn dominates_in(adj: Seq<Seq<usize>>, s: int, d: int, v: int) -> bool {
    forall|p: Seq<int>| #[trigger] connects(adj, p, s, v) ==> p.contains(d)
}

/// In a closed graph an edge ends at a vertex of the graph.
pub proof fn lemma_edge_target(adj: Seq<Seq<usize>>, a: int, b: int)
    requires
        closed_adj(adj),
        has_edge(adj, a, b),
    ensures
        0 <= b < adj.len(),
{
    let i = choose|i: int| 0 <= i < adj[a].len() && #[trigger] adj[a][i] == b;
    assert(adj[a][i] < adj.len());
}

/// An entry of a neighbour list is an edge.
pub proof fn lemma_edge_at(adj: Seq<Seq<usize>>, a: int, i: int)
    requires
        0 <= a < adj.len(),
        0 <= i < adj[a].len(),
    ensures
        has_edge(adj, a, adj[a][i] as int),
{
}

/// Every vertex of a path is a vertex of the graph.
pub proof fn lemma_path_in_range(adj: Seq<Seq<usize>>, p: Seq<int>, i: int)
    requires
        closed_adj(adj),
        is_path(adj, p),
        0 <= i < p.len(),
    ensures
        0 <= p[i] < adj.len(),
    decreases i,
{
    if i > 0 {
        lemma_path_in_range(adj, p, i - 1);
        assert(edge_at(adj, p, i - 1));
        lemma_edge_target(adj, p[i - 1], p[i]);
    }
}

/// A vertex alone is a path from itself to itself.
pub proof fn lemma_path_single(adj: Seq<Seq<usize>>, a: int)
    requires
        0 <= a < adj.len(),
    ensures
        connects(adj, seq![a], a, a),
        reachable(adj, a, a),
{
    assert(connects(adj, seq![a], a, a));
}

/// A path followed by one more edge is a path.
pub proof fn lemma_path_push(adj: Seq<Seq<usize>>, p: Seq<int>, b: int)
    requires
        is_path(adj, p),
        has_edge(adj, p.last(), b),
    ensures
        is_path(adj, p.push(b)),
        p.push(b)[0] == p[0],
        p.push(b).last() == b,
{
    let q = p.push(b);
    assert forall|i: int| 0 <= i < q.len() - 1 implies #[trigger] edge_at(adj, q, i) by {
        if i < p.len() - 1 {
            assert(edge_at(adj, p, i));
            assert(q[i] == p[i] && q[i + 1] == p[i + 1]);
        }
    }
}

/// A path that ends where another begins joins with it into one path.
pub proof fn lemma_path_join(adj: Seq<Seq<usize>>, p: Seq<int>, q: Seq<int>)
    requires
        is_path(adj, p),
        is_path(adj, q),
        p.last() == q[0],
    ensures
        is_path(adj, p + q.skip(1)),
        (p + q.skip(1))[0] == p[0],
        (p + q.skip(1)).last() == q.last(),
        forall|x: int| (p + q.skip(1)).contains(x) <==> (p.contains(x) || q.contains(x)),
{
    let r = p + q.skip(1);
    assert forall|i: int| 0 <= i < r.len() - 1 implies #[trigger] edge_at(adj, r, i) by {
        if i < p.len() - 1 {
            assert(edge_at(adj, p, i));
            assert(r[i] == p[i] && r[i + 1] == p[i + 1]);
        } else if i == p.len() - 1 {
            assert(edge_at(adj, q, 0));
            assert(r[i] == q[0] && r[i + 1] == q[1]);
        } else {
            let j = i - p.len() + 1;
            assert(edge_at(adj, q, j));
            assert(r[i] == q[j] && r[i + 1] == q[j + 1]);
        }
    }
    assert forall|x: int| r.contains(x) <==> (p.contains(x) || q.contains(x)) by {
        if r.contains(x) {
            let i = choose|i: int| 0 <= i < r.len() && r[i] == x;
            if i < p.len() {
                assert(p[i] == x);
            } else {
                assert(q[i - p.len() + 1] == x);
            }
        }
        if p.contains(x) {
            let i = choose|i: int| 0 <= i < p.len() && p[i] == x;
            assert(r[i] == x);
        }
        if q.contains(x) {
            let i = choose|i: int| 0 <= i < q.len() && q[i] == x;
            if i == 0 {
                assert(r[p.len() - 1] == x);
            } else {
                assert(r[p.len() + i - 1] == x);
            }
        }
    }
}

/// The stretch of a path between two of its positions is a path.
pub proof fn lemma_path_part(adj: Seq<Seq<usize>>, p: Seq<int>, i: int, j: int)
    requires
        closed_adj(adj),
        is_path(adj, p),
        0 <= i <= j < p.len(),
    ensures
        is_path(adj, p.subrange(i, j + 1)),
        p.subrange(i, j + 1)[0] == p[i],
        p.subrange(i, j + 1).last() == p[j],
{
    let q = p.subrange(i, j + 1);
    lemma_path_in_range(adj, p, i);
    assert forall|m: int| 0 <= m < q.len() - 1 implies #[trigger] edge_at(adj, q, m) by {
        assert(edge_at(adj, p, i + m));
        assert(q[m] == p[i + m] && q[m + 1] == p[i + m + 1]);
    }
}

/// Reachability is transitive.
pub proof fn lemma_reachable_trans(adj: Seq<Seq<usize>>, a: int, b: int, c: int)
    requires
        reachable(adj, a, b),
        reachable(adj, b, c),
    ensures
        reachable(adj, a, c),
{
    let p = choose|p: Seq<int>| #[trigger] connects(adj, p, a, b);
    let q = choose|q: Seq<int>| #[trigger] connects(adj, q, b, c);
    lemma_path_join(adj, p, q);
    assert(connects(adj, p + q.skip(1), a, c));
}

/// What is one edge beyond a reachable vertex is reachable.
pub proof fn lemma_reachable_step(adj: Seq<Seq<usize>>, a: int, b: int, c: int)
    requires
        reachable(adj, a, b),
        has_edge(adj, b, c),
    ensures
        reachable(adj, a, c),
{
    let p = choose|p: Seq<int>| #[trigger] connects(adj, p, a, b);
    lemma_path_push(adj, p, c);
    assert(connects(adj, p.push(c), a, c));
}

/// A set of vertices that holds `s` and is closed under edges holds all that
/// is reachable from `s`.
pub proof fn lemma_closed_set_holds_reachable(
    adj: Seq<Seq<usize>>,
    inside: spec_fn(int) -> bool,
    p: Seq<int>,
    i: int,
)
    requires
        is_path(adj, p),
        inside(p[0]),
        forall|a: int, b: int| inside(a) && #[trigger] has_edge(adj, a, b) ==> inside(b),
        0 <= i < p.len(),
    ensures
        inside(p[i]),
    decreases i,
{
    if i > 0 {
        lemma_closed_set_holds_reachable(adj, inside, p, i - 1);
        assert(edge_at(adj, p, i - 1));
    }
}

} // verus!
