//! The bookkeeping of a region graph: which vertices are still alive, which
//! neighbours count, and which regions a region is made of.

use crate::util::paths::{
    closed_adj, connects, edge_at, has_edge, lemma_path_single, lemma_reachable_step,
    lemma_reachable_trans, reachable,
};
use vstd::prelude::*;

verus! {

/// How many of the first `k` flags are set.
pub open spec fn live_count(live: Seq<bool>, k: int) -> int
    decreases k,
{
    if k <= 0 {
        0
    } else {
        live_count(live, k - 1) + (if live[k - 1] {
            1int
        } else {
            0int
        })
    }
}

/// No more flags are counted than there are.
pub proof fn lemma_live_count_bounds(live: Seq<bool>, k: int)
    requires
        0 <= k,
    ensures
        0 <= live_count(live, k) <= k,
    decreases k,
{
    if k > 0 {
        lemma_live_count_bounds(live, k - 1);
    }
}

/// Counting further counts no less.
pub proof fn lemma_live_count_mono(live: Seq<bool>, a: int, b: int)
    requires
        0 <= a <= b,
    ensures
        live_count(live, a) <= live_count(live, b),
    decreases b - a,
{
    if a < b {
        lemma_live_count_mono(live, a, b - 1);
    }
}

/// Two sequences that agree on the first `k` flags have the same count there.
pub proof fn lemma_live_count_same(a: Seq<bool>, b: Seq<bool>, k: int)
    requires
        0 <= k <= a.len(),
        k <= b.len(),
        forall|i: int| 0 <= i < k ==> a[i] == b[i],
    ensures
        live_count(a, k) == live_count(b, k),
    decreases k,
{
    if k > 0 {
        lemma_live_count_same(a, b, k - 1);
    }
}

/// If no flag from `a` up to `b` is set, counting up to `b` counts what
/// counting up to `a` does.
pub proof fn lemma_live_count_gap(live: Seq<bool>, a: int, b: int)
    requires
        0 <= a <= b <= live.len(),
        forall|i: int| a <= i < b ==> !live[i],
    ensures
        live_count(live, a) == live_count(live, b),
    decreases b - a,
{
    if a < b {
        lemma_live_count_gap(live, a, b - 1);
    }
}

/// Clearing a flag that is set lowers the count by one.
pub proof fn lemma_live_count_clear(live: Seq<bool>, m: int, k: int)
    requires
        0 <= m < live.len(),
        0 <= k <= live.len(),
        live[m],
    ensures
        live_count(live.update(m, false), k) == live_count(live, k) - (if m < k {
            1int
        } else {
            0int
        }),
    decreases k,
{
    if k > 0 {
        lemma_live_count_clear(live, m, k - 1);
    }
}

/// Appending a flag counts it.
pub proof fn lemma_live_count_push(live: Seq<bool>, b: bool)
    ensures
        live_count(live.push(b), live.len() as int + 1) == live_count(live, live.len() as int) + (if b {
            1int
        } else {
            0int
        }),
{
    lemma_live_count_same(live, live.push(b), live.len() as int);
}

/// The targets in `edges` that are alive, each once, in the order of their
/// first occurrence.
pub open spec fn distinct_live(edges: Seq<usize>, live: Seq<bool>) -> Seq<usize>
    decreases edges.len(),
{
    if edges.len() == 0 {
        Seq::empty()
    } else {
        let rest = distinct_live(edges.drop_last(), live);
        let x = edges.last();
        if x < live.len() && live[x as int] && !rest.contains(x) {
            rest.push(x)
        } else {
            rest
        }
    }
}

/// `distinct_live` holds exactly the live targets, and none twice.
pub proof fn lemma_distinct_live(edges: Seq<usize>, live: Seq<bool>)
    ensures
        forall|i: int, j: int|
            0 <= i < j < distinct_live(edges, live).len() ==> distinct_live(edges, live)[i]
                != distinct_live(edges, live)[j],
        forall|x: usize| #[trigger]
            distinct_live(edges, live).contains(x) <==> (edges.contains(x) && x < live.len()
                && live[x as int]),
        distinct_live(edges, live).len() <= edges.len(),
    decreases edges.len(),
{
    let r = distinct_live(edges, live);
    if edges.len() > 0 {
        let rest = distinct_live(edges.drop_last(), live);
        let x = edges.last();
        lemma_distinct_live(edges.drop_last(), live);
        assert forall|y: usize| #[trigger] r.contains(y) <==> (edges.contains(y) && y < live.len()
            && live[y as int]) by {
            if r.contains(y) {
                let i = choose|i: int| 0 <= i < r.len() && r[i] == y;
                if i < rest.len() {
                    assert(rest[i] == y);
                    assert(rest.contains(y));
                    let k = choose|k: int| 0 <= k < edges.drop_last().len() && edges.drop_last()[k]
                        == y;
                    assert(edges[k] == y);
                } else {
                    assert(edges[edges.len() - 1] == y);
                }
            }
            if edges.contains(y) && y < live.len() && live[y as int] {
                let k = choose|k: int| 0 <= k < edges.len() && edges[k] == y;
                if k < edges.len() - 1 {
                    assert(edges.drop_last()[k] == y);
                    assert(rest.contains(y));
                    let i = choose|i: int| 0 <= i < rest.len() && rest[i] == y;
                    assert(r[i] == y);
                } else {
                    if rest.contains(y) {
                        let i = choose|i: int| 0 <= i < rest.len() && rest[i] == y;
                        assert(r[i] == y);
                    } else {
                        assert(r[rest.len() as int] == y);
                    }
                }
            }
        }
        assert forall|i: int, j: int| 0 <= i < j < r.len() implies r[i] != r[j] by {
            if j == rest.len() {
                assert(rest[i] == r[i]);
                assert(rest.contains(r[i]));
            }
        }
    } else {
        assert forall|x: usize| #[trigger] r.contains(x) <==> (edges.contains(x) && x < live.len()
            && live[x as int]) by {}
    }
}

/// A path in a graph is a path in every graph that extends it.
pub proof fn lemma_reachable_grows(a0: Seq<Seq<usize>>, a1: Seq<Seq<usize>>, r: int, b: int)
    requires
        a0.len() <= a1.len(),
        forall|x: int| 0 <= x < a0.len() ==> a1[x] == a0[x],
        reachable(a0, r, b),
    ensures
        reachable(a1, r, b),
{
    let p = choose|p: Seq<int>| #[trigger] connects(a0, p, r, b);
    assert forall|i: int| 0 <= i < p.len() - 1 implies #[trigger] edge_at(a1, p, i) by {
        assert(edge_at(a0, p, i));
        let x = p[i];
        let e = choose|e: int| 0 <= e < a0[x].len() && #[trigger] a0[x][e] == p[i + 1];
        assert(a1[x][e] == p[i + 1]);
    }
    assert(connects(a1, p, r, b));
}

/// What can be reached from a child can be reached from its parent.
pub proof fn lemma_reachable_from_parent(adj: Seq<Seq<usize>>, c: int, r: int, b: int)
    requires
        has_edge(adj, c, r),
        reachable(adj, r, b),
    ensures
        reachable(adj, c, b),
{
    lemma_path_single(adj, c);
    lemma_reachable_step(adj, c, c, r);
    lemma_reachable_trans(adj, c, r, b);
}

/// If exactly one flag at or above position two is set besides the first two,
/// that position is the only one.
pub proof fn lemma_unique_live(live: Seq<bool>, r: int, x: int)
    requires
        live.len() >= 2,
        live[0],
        live[1],
        live_count(live, live.len() as int) == 3,
        2 <= r < live.len(),
        2 <= x < live.len(),
        live[r],
        live[x],
    ensures
        r == x,
{
    let n = live.len() as int;
    if r != x {
        let a = if r < x {
            r
        } else {
            x
        };
        let b = if r < x {
            x
        } else {
            r
        };
        lemma_live_count_bounds(live, 0);
        assert(live_count(live, 2) == 2) by {
            assert(live_count(live, 0) == 0);
            assert(live_count(live, 1) == 1);
        }
        lemma_live_count_mono(live, 2, a);
        assert(live_count(live, a + 1) == live_count(live, a) + 1);
        lemma_live_count_mono(live, a + 1, b);
        assert(live_count(live, b + 1) == live_count(live, b) + 1);
        lemma_live_count_mono(live, b + 1, n);
    }
}

/// One of the first `k` members has an edge to `y`.
pub open spec fn feeds(adj: Seq<Seq<usize>>, members: Seq<usize>, k: int, y: int) -> bool {
    exists|i: int| 0 <= i < k && i < members.len() && #[trigger] has_edge(adj, members[i] as int, y)
}

/// `x` has an edge to one of the first `k` members.
pub open spec fn fed_by(adj: Seq<Seq<usize>>, members: Seq<usize>, k: int, x: int) -> bool {
    exists|i: int| 0 <= i < k && i < members.len() && #[trigger] has_edge(adj, x, members[i] as int)
}

/// How the edges `cur` of a graph with the new vertex `c` stand to the edges
/// `adj0` before `c` was added, once the edges of the first `k` members have
/// been handed on to `c`: among the old vertices nothing has changed; `c`
/// leads to the live vertices some such member led to, and to those in `td`;
/// and `c` is entered from the live vertices that led to some such member,
/// and from those in `pd`.
pub open spec fn rewired(
    adj0: Seq<Seq<usize>>,
    cur: Seq<Seq<usize>>,
    live1: Seq<bool>,
    members: Seq<usize>,
    c: int,
    k: int,
    pd: Seq<usize>,
    td: Seq<usize>,
) -> bool {
    &&& adj0.len() == c
    &&& cur.len() == c + 1
    &&& live1.len() == c + 1
    &&& c < usize::MAX
    &&& forall|x: int, y: int|
        0 <= x < c && 0 <= y < c ==> (#[trigger] has_edge(cur, x, y) <==> has_edge(adj0, x, y))
    &&& forall|y: int|
        0 <= y <= c ==> (#[trigger] has_edge(cur, c, y) <==> (y < c && live1[y] && (feeds(
            adj0,
            members,
            k,
            y,
        ) || td.contains(y as usize))))
    &&& forall|x: int|
        0 <= x <= c ==> (#[trigger] has_edge(cur, x, c) <==> (x < c && live1[x] && (fed_by(
            adj0,
            members,
            k,
            x,
        ) || pd.contains(x as usize))))
}

/// Right after the new vertex has been added, none of its edges are there.
pub proof fn lemma_rewire_start(
    adj0: Seq<Seq<usize>>,
    cur: Seq<Seq<usize>>,
    live1: Seq<bool>,
    members: Seq<usize>,
    c: int,
)
    requires
        closed_adj(adj0),
        adj0.len() == c,
        cur.len() == c + 1,
        live1.len() == c + 1,
        c < usize::MAX,
        forall|a: int, b: int| #[trigger] has_edge(cur, a, b) <==> has_edge(adj0, a, b),
    ensures
        rewired(adj0, cur, live1, members, c, 0, Seq::empty(), Seq::empty()),
{
    assert forall|x: int| 0 <= x <= c implies (#[trigger] has_edge(cur, x, c) <==> (x < c
        && live1[x] && (fed_by(adj0, members, 0, x) || Seq::<usize>::empty().contains(
        x as usize,
    )))) by {
        if has_edge(cur, x, c) {
            assert(has_edge(adj0, x, c));
            let i = choose|i: int| 0 <= i < adj0[x].len() && #[trigger] adj0[x][i] == c;
            assert(adj0[x][i] < adj0.len());
        }
    }
    assert forall|y: int| 0 <= y <= c implies (#[trigger] has_edge(cur, c, y) <==> (y < c
        && live1[y] && (feeds(adj0, members, 0, y) || Seq::<usize>::empty().contains(
        y as usize,
    )))) by {
        if has_edge(cur, c, y) {
            assert(has_edge(adj0, c, y));
        }
    }
}

/// An edge from the live vertex `p` to the new vertex has been added.
pub proof fn lemma_rewire_in(
    adj0: Seq<Seq<usize>>,
    cur: Seq<Seq<usize>>,
    cur2: Seq<Seq<usize>>,
    live1: Seq<bool>,
    members: Seq<usize>,
    c: int,
    k: int,
    pd: Seq<usize>,
    td: Seq<usize>,
    p: usize,
)
    requires
        rewired(adj0, cur, live1, members, c, k, pd, td),
        p < c,
        live1[p as int],
        cur2.len() == c + 1,
        forall|a: int, b: int| #[trigger]
            has_edge(cur2, a, b) <==> (has_edge(cur, a, b) || (a == p && b == c)),
    ensures
        rewired(adj0, cur2, live1, members, c, k, pd.push(p), td),
{
    let pd2 = pd.push(p);
    assert forall|x: int, y: int| 0 <= x < c && 0 <= y < c implies (#[trigger] has_edge(cur2, x, y)
        <==> has_edge(adj0, x, y)) by {
        assert(has_edge(cur, x, y) <==> has_edge(adj0, x, y));
    }
    assert forall|y: int| 0 <= y <= c implies (#[trigger] has_edge(cur2, c, y) <==> (y < c
        && live1[y] && (feeds(adj0, members, k, y) || td.contains(y as usize)))) by {
        assert(has_edge(cur, c, y) <==> (y < c && live1[y] && (feeds(adj0, members, k, y)
            || td.contains(y as usize))));
    }
    assert forall|x: int| 0 <= x <= c implies (#[trigger] has_edge(cur2, x, c) <==> (x < c
        && live1[x] && (fed_by(adj0, members, k, x) || pd2.contains(x as usize)))) by {
        assert(has_edge(cur, x, c) <==> (x < c && live1[x] && (fed_by(adj0, members, k, x)
            || pd.contains(x as usize))));
        if pd.contains(x as usize) {
            let i = choose|i: int| 0 <= i < pd.len() && pd[i] == x as usize;
            assert(pd2[i] == x as usize);
        }
        if pd2.contains(x as usize) {
            let i = choose|i: int| 0 <= i < pd2.len() && pd2[i] == x as usize;
            if i < pd.len() {
                assert(pd[i] == x as usize);
            }
        }
        if x == p {
            assert(pd2[pd.len() as int] == p);
        }
    }
}

/// An edge from the new vertex to the live vertex `t` has been added.
pub proof fn lemma_rewire_out(
    adj0: Seq<Seq<usize>>,
    cur: Seq<Seq<usize>>,
    cur2: Seq<Seq<usize>>,
    live1: Seq<bool>,
    members: Seq<usize>,
    c: int,
    k: int,
    pd: Seq<usize>,
    td: Seq<usize>,
    t: usize,
)
    requires
        rewired(adj0, cur, live1, members, c, k, pd, td),
        t < c,
        live1[t as int],
        cur2.len() == c + 1,
        forall|a: int, b: int| #[trigger]
            has_edge(cur2, a, b) <==> (has_edge(cur, a, b) || (a == c && b == t)),
    ensures
        rewired(adj0, cur2, live1, members, c, k, pd, td.push(t)),
{
    let td2 = td.push(t);
    assert forall|x: int, y: int| 0 <= x < c && 0 <= y < c implies (#[trigger] has_edge(cur2, x, y)
        <==> has_edge(adj0, x, y)) by {
        assert(has_edge(cur, x, y) <==> has_edge(adj0, x, y));
    }
    assert forall|x: int| 0 <= x <= c implies (#[trigger] has_edge(cur2, x, c) <==> (x < c
        && live1[x] && (fed_by(adj0, members, k, x) || pd.contains(x as usize)))) by {
        assert(has_edge(cur, x, c) <==> (x < c && live1[x] && (fed_by(adj0, members, k, x)
            || pd.contains(x as usize))));
    }
    assert forall|y: int| 0 <= y <= c implies (#[trigger] has_edge(cur2, c, y) <==> (y < c
        && live1[y] && (feeds(adj0, members, k, y) || td2.contains(y as usize)))) by {
        assert(has_edge(cur, c, y) <==> (y < c && live1[y] && (feeds(adj0, members, k, y)
            || td.contains(y as usize))));
        if td.contains(y as usize) {
            let i = choose|i: int| 0 <= i < td.len() && td[i] == y as usize;
            assert(td2[i] == y as usize);
        }
        if td2.contains(y as usize) {
            let i = choose|i: int| 0 <= i < td2.len() && td2[i] == y as usize;
            if i < td.len() {
                assert(td[i] == y as usize);
            }
        }
        if y == t {
            assert(td2[td.len() as int] == t);
        }
    }
}

/// All edges of the member at `k` have been handed on.
pub proof fn lemma_rewire_next(
    adj0: Seq<Seq<usize>>,
    cur: Seq<Seq<usize>>,
    live1: Seq<bool>,
    members: Seq<usize>,
    c: int,
    k: int,
    pd: Seq<usize>,
    td: Seq<usize>,
)
    requires
        rewired(adj0, cur, live1, members, c, k, pd, td),
        0 <= k < members.len(),
        forall|x: usize| #[trigger]
            pd.contains(x) <==> (x < c && live1[x as int] && has_edge(
                adj0,
                x as int,
                members[k] as int,
            )),
        forall|y: usize| #[trigger]
            td.contains(y) <==> (y < c && live1[y as int] && has_edge(
                adj0,
                members[k] as int,
                y as int,
            )),
    ensures
        rewired(adj0, cur, live1, members, c, k + 1, Seq::empty(), Seq::empty()),
{
    let e = Seq::<usize>::empty();
    assert forall|y: int| 0 <= y <= c implies (#[trigger] has_edge(cur, c, y) <==> (y < c
        && live1[y] && (feeds(adj0, members, k + 1, y) || e.contains(y as usize)))) by {
        assert(has_edge(cur, c, y) <==> (y < c && live1[y] && (feeds(adj0, members, k, y)
            || td.contains(y as usize))));
        if feeds(adj0, members, k + 1, y) {
            let i = choose|i: int|
                0 <= i < k + 1 && i < members.len() && #[trigger] has_edge(
                    adj0,
                    members[i] as int,
                    y,
                );
            if i < k {
                assert(feeds(adj0, members, k, y));
            } else if y < c && live1[y] {
                assert(td.contains(y as usize));
            }
        }
        if feeds(adj0, members, k, y) {
            let i = choose|i: int|
                0 <= i < k && i < members.len() && #[trigger] has_edge(adj0, members[i] as int, y);
            assert(feeds(adj0, members, k + 1, y));
        }
        if td.contains(y as usize) {
            assert(has_edge(adj0, members[k] as int, y));
            assert(feeds(adj0, members, k + 1, y));
        }
    }
    assert forall|x: int| 0 <= x <= c implies (#[trigger] has_edge(cur, x, c) <==> (x < c
        && live1[x] && (fed_by(adj0, members, k + 1, x) || e.contains(x as usize)))) by {
        assert(has_edge(cur, x, c) <==> (x < c && live1[x] && (fed_by(adj0, members, k, x)
            || pd.contains(x as usize))));
        if fed_by(adj0, members, k + 1, x) {
            let i = choose|i: int|
                0 <= i < k + 1 && i < members.len() && #[trigger] has_edge(
                    adj0,
                    x,
                    members[i] as int,
                );
            if i < k {
                assert(fed_by(adj0, members, k, x));
            } else if x < c && live1[x] {
                assert(pd.contains(x as usize));
            }
        }
        if fed_by(adj0, members, k, x) {
            let i = choose|i: int|
                0 <= i < k && i < members.len() && #[trigger] has_edge(adj0, x, members[i] as int);
            assert(fed_by(adj0, members, k + 1, x));
        }
        if pd.contains(x as usize) {
            assert(has_edge(adj0, x, members[k] as int));
            assert(fed_by(adj0, members, k + 1, x));
        }
    }
}

/// Whether a list of neighbours holds a vertex is whether there is the edge.
pub proof fn lemma_has_edge_contains(adj: Seq<Seq<usize>>, a: int, y: usize)
    requires
        0 <= a < adj.len(),
    ensures
        adj[a].contains(y) <==> has_edge(adj, a, y as int),
{
    if adj[a].contains(y) {
        let i = choose|i: int| 0 <= i < adj[a].len() && adj[a][i] == y;
        assert(adj[a][i] == y as int);
    }
    if has_edge(adj, a, y as int) {
        let i = choose|i: int| 0 <= i < adj[a].len() && #[trigger] adj[a][i] == y as int;
        assert(adj[a][i] == y);
    }
}

/// One entry `from` for each time `w` stands in `edges`.
pub open spec fn hits(edges: Seq<usize>, w: int, from: usize) -> Seq<usize>
    decreases edges.len(),
{
    if edges.len() == 0 {
        Seq::empty()
    } else if edges.last() == w {
        hits(edges.drop_last(), w, from).push(from)
    } else {
        hits(edges.drop_last(), w, from)
    }
}

/// The sources of the edges that lead to `w` from the first `k` vertices: in
/// ascending order, one entry for each edge.
pub open spec fn sources(adj: Seq<Seq<usize>>, w: int, k: int) -> Seq<usize>
    decreases k,
{
    if k <= 0 {
        Seq::empty()
    } else {
        sources(adj, w, k - 1) + hits(adj[k - 1], w, (k - 1) as usize)
    }
}

/// What the first `k` members hand on from their lists: for each member in
/// turn, its live neighbours, each once.
pub open spec fn handed(lists: Seq<Seq<usize>>, members: Seq<usize>, live: Seq<bool>, k: int) -> Seq<usize>
    decreases k,
{
    if k <= 0 {
        Seq::empty()
    } else {
        handed(lists, members, live, k - 1) + distinct_live(lists[members[k - 1] as int], live)
    }
}

/// One if the condition holds, zero if not.
pub open spec fn one_if(b: bool) -> nat {
    if b {
        1
    } else {
        0
    }
}

/// How many of the first `k` members have `x` among their live neighbours.
pub open spec fn times(lists: Seq<Seq<usize>>, members: Seq<usize>, live: Seq<bool>, k: int, x: usize) -> nat
    decreases k,
{
    if k <= 0 {
        0
    } else {
        times(lists, members, live, k - 1, x) + one_if(
            distinct_live(lists[members[k - 1] as int], live).contains(x),
        )
    }
}

/// `n` entries `c`.
pub open spec fn copies(c: usize, n: nat) -> Seq<usize> {
    Seq::new(n, |i: int| c)
}

/// The lists of a graph with the new vertex `c`, once the edges of the first
/// `k` members have been handed on to `c`, and of the next member the
/// predecessors `pd` and the successors `td`: `c` has what was handed on, in
/// that order, and every old vertex has, after what it had, one entry `c`
/// for each member that handed it on.
pub open spec fn handed_on(
    out0: Seq<Seq<usize>>,
    in0: Seq<Seq<usize>>,
    out1: Seq<Seq<usize>>,
    in1: Seq<Seq<usize>>,
    live1: Seq<bool>,
    members: Seq<usize>,
    c: int,
    k: int,
    pd: Seq<usize>,
    td: Seq<usize>,
) -> bool {
    &&& out0.len() == c
    &&& in0.len() == c
    &&& out1.len() == c + 1
    &&& in1.len() == c + 1
    &&& out1[c] == handed(out0, members, live1, k) + td
    &&& in1[c] == handed(in0, members, live1, k) + pd
    &&& forall|x: int|
        0 <= x < c ==> #[trigger] out1[x] == out0[x] + copies(
            c as usize,
            times(in0, members, live1, k, x as usize) + one_if(pd.contains(x as usize)),
        )
    &&& forall|x: int|
        0 <= x < c ==> #[trigger] in1[x] == in0[x] + copies(
            c as usize,
            times(out0, members, live1, k, x as usize) + one_if(td.contains(x as usize)),
        )
}

/// A vertex that is not alive is handed on by no member.
pub proof fn lemma_times_dead(lists: Seq<Seq<usize>>, members: Seq<usize>, live: Seq<bool>, k: int, x: usize)
    requires
        !(x < live.len() && live[x as int]),
    ensures
        times(lists, members, live, k, x) == 0,
    decreases k,
{
    if k > 0 {
        lemma_times_dead(lists, members, live, k - 1, x);
        lemma_distinct_live(lists[members[k - 1] as int], live);
    }
}

/// Right after the new vertex has been added, nothing has been handed on.
pub proof fn lemma_handed_start(
    out0: Seq<Seq<usize>>,
    in0: Seq<Seq<usize>>,
    out1: Seq<Seq<usize>>,
    in1: Seq<Seq<usize>>,
    live1: Seq<bool>,
    members: Seq<usize>,
    c: int,
)
    requires
        out0.len() == c,
        in0.len() == c,
        out1.len() == c + 1,
        in1.len() == c + 1,
        out1[c].len() == 0,
        in1[c].len() == 0,
        forall|x: int| 0 <= x < c ==> #[trigger] out1[x] == out0[x],
        forall|x: int| 0 <= x < c ==> #[trigger] in1[x] == in0[x],
    ensures
        handed_on(out0, in0, out1, in1, live1, members, c, 0, Seq::empty(), Seq::empty()),
{
    let e = Seq::<usize>::empty();
    assert(out1[c] =~= handed(out0, members, live1, 0) + e);
    assert(in1[c] =~= handed(in0, members, live1, 0) + e);
    assert forall|x: int| 0 <= x < c implies #[trigger] out1[x] == out0[x] + copies(
        c as usize,
        times(in0, members, live1, 0, x as usize) + one_if(e.contains(x as usize)),
    ) by {
        assert(out0[x] + copies(c as usize, 0) =~= out0[x]);
    }
    assert forall|x: int| 0 <= x < c implies #[trigger] in1[x] == in0[x] + copies(
        c as usize,
        times(out0, members, live1, 0, x as usize) + one_if(e.contains(x as usize)),
    ) by {
        assert(in0[x] + copies(c as usize, 0) =~= in0[x]);
    }
}

/// The edge from `p` to the new vertex has been recorded at both ends.
pub proof fn lemma_handed_in(
    out0: Seq<Seq<usize>>,
    in0: Seq<Seq<usize>>,
    out1: Seq<Seq<usize>>,
    in1: Seq<Seq<usize>>,
    out2: Seq<Seq<usize>>,
    in2: Seq<Seq<usize>>,
    live1: Seq<bool>,
    members: Seq<usize>,
    c: int,
    k: int,
    pd: Seq<usize>,
    td: Seq<usize>,
    p: usize,
)
    requires
        handed_on(out0, in0, out1, in1, live1, members, c, k, pd, td),
        c < usize::MAX,
        p < c,
        !pd.contains(p),
        out2.len() == c + 1,
        in2.len() == c + 1,
        forall|x: int|
            0 <= x <= c ==> #[trigger] out2[x] == (if x == p {
                out1[x].push(c as usize)
            } else {
                out1[x]
            }),
        forall|x: int|
            0 <= x <= c ==> #[trigger] in2[x] == (if x == c {
                in1[x].push(p)
            } else {
                in1[x]
            }),
    ensures
        handed_on(out0, in0, out2, in2, live1, members, c, k, pd.push(p), td),
{
    let pd2 = pd.push(p);
    assert(in2[c] =~= handed(in0, members, live1, k) + pd2);
    assert forall|x: int| 0 <= x < c implies #[trigger] out2[x] == out0[x] + copies(
        c as usize,
        times(in0, members, live1, k, x as usize) + one_if(pd2.contains(x as usize)),
    ) by {
        let t = times(in0, members, live1, k, x as usize);
        assert(out1[x] == out0[x] + copies(c as usize, t + one_if(pd.contains(x as usize))));
        if x == p {
            assert(pd2[pd.len() as int] == p);
            assert(pd2.contains(p));
            assert(out2[x] =~= out0[x] + copies(c as usize, t + 1));
        } else {
            if pd.contains(x as usize) {
                let i = choose|i: int| 0 <= i < pd.len() && pd[i] == x as usize;
                assert(pd2[i] == x as usize);
            }
            if pd2.contains(x as usize) {
                let i = choose|i: int| 0 <= i < pd2.len() && pd2[i] == x as usize;
                assert(pd[i] == x as usize);
            }
        }
    }
    assert forall|x: int| 0 <= x < c implies #[trigger] in2[x] == in0[x] + copies(
        c as usize,
        times(out0, members, live1, k, x as usize) + one_if(td.contains(x as usize)),
    ) by {
        assert(in2[x] == in1[x]);
    }
}

/// The edge from the new vertex to `t` has been recorded at both ends.
pub proof fn lemma_handed_out(
    out0: Seq<Seq<usize>>,
    in0: Seq<Seq<usize>>,
    out1: Seq<Seq<usize>>,
    in1: Seq<Seq<usize>>,
    out2: Seq<Seq<usize>>,
    in2: Seq<Seq<usize>>,
    live1: Seq<bool>,
    members: Seq<usize>,
    c: int,
    k: int,
    pd: Seq<usize>,
    td: Seq<usize>,
    t: usize,
)
    requires
        handed_on(out0, in0, out1, in1, live1, members, c, k, pd, td),
        c < usize::MAX,
        t < c,
        !td.contains(t),
        out2.len() == c + 1,
        in2.len() == c + 1,
        forall|x: int|
            0 <= x <= c ==> #[trigger] out2[x] == (if x == c {
                out1[x].push(t)
            } else {
                out1[x]
            }),
        forall|x: int|
            0 <= x <= c ==> #[trigger] in2[x] == (if x == t {
                in1[x].push(c as usize)
            } else {
                in1[x]
            }),
    ensures
        handed_on(out0, in0, out2, in2, live1, members, c, k, pd, td.push(t)),
{
    let td2 = td.push(t);
    assert(out2[c] =~= handed(out0, members, live1, k) + td2);
    assert forall|x: int| 0 <= x < c implies #[trigger] in2[x] == in0[x] + copies(
        c as usize,
        times(out0, members, live1, k, x as usize) + one_if(td2.contains(x as usize)),
    ) by {
        let n = times(out0, members, live1, k, x as usize);
        assert(in1[x] == in0[x] + copies(c as usize, n + one_if(td.contains(x as usize))));
        if x == t {
            assert(td2[td.len() as int] == t);
            assert(td2.contains(t));
            assert(in2[x] =~= in0[x] + copies(c as usize, n + 1));
        } else {
            if td.contains(x as usize) {
                let i = choose|i: int| 0 <= i < td.len() && td[i] == x as usize;
                assert(td2[i] == x as usize);
            }
            if td2.contains(x as usize) {
                let i = choose|i: int| 0 <= i < td2.len() && td2[i] == x as usize;
                assert(td[i] == x as usize);
            }
        }
    }
    assert forall|x: int| 0 <= x < c implies #[trigger] out2[x] == out0[x] + copies(
        c as usize,
        times(in0, members, live1, k, x as usize) + one_if(pd.contains(x as usize)),
    ) by {
        assert(out2[x] == out1[x]);
    }
}

/// All edges of the member at `k` have been handed on.
pub proof fn lemma_handed_next(
    out0: Seq<Seq<usize>>,
    in0: Seq<Seq<usize>>,
    out1: Seq<Seq<usize>>,
    in1: Seq<Seq<usize>>,
    live1: Seq<bool>,
    members: Seq<usize>,
    c: int,
    k: int,
    pd: Seq<usize>,
    td: Seq<usize>,
)
    requires
        handed_on(out0, in0, out1, in1, live1, members, c, k, pd, td),
        0 <= k < members.len(),
        pd == distinct_live(in0[members[k] as int], live1),
        td == distinct_live(out0[members[k] as int], live1),
    ensures
        handed_on(out0, in0, out1, in1, live1, members, c, k + 1, Seq::empty(), Seq::empty()),
{
    let e = Seq::<usize>::empty();
    assert(out1[c] =~= handed(out0, members, live1, k + 1) + e);
    assert(in1[c] =~= handed(in0, members, live1, k + 1) + e);
    assert forall|x: int| 0 <= x < c implies #[trigger] out1[x] == out0[x] + copies(
        c as usize,
        times(in0, members, live1, k + 1, x as usize) + one_if(e.contains(x as usize)),
    ) by {
        assert(times(in0, members, live1, k + 1, x as usize) == times(
            in0,
            members,
            live1,
            k,
            x as usize,
        ) + one_if(pd.contains(x as usize)));
    }
    assert forall|x: int| 0 <= x < c implies #[trigger] in1[x] == in0[x] + copies(
        c as usize,
        times(out0, members, live1, k + 1, x as usize) + one_if(e.contains(x as usize)),
    ) by {
        assert(times(out0, members, live1, k + 1, x as usize) == times(
            out0,
            members,
            live1,
            k,
            x as usize,
        ) + one_if(td.contains(x as usize)));
    }
}

/// While the edges of a member are handed on, its own lists are what they
/// were: a vertex that is not alive gets no entry.
pub proof fn lemma_handed_member(
    out0: Seq<Seq<usize>>,
    in0: Seq<Seq<usize>>,
    out1: Seq<Seq<usize>>,
    in1: Seq<Seq<usize>>,
    live1: Seq<bool>,
    members: Seq<usize>,
    c: int,
    k: int,
    pd: Seq<usize>,
    td: Seq<usize>,
    m: usize,
)
    requires
        handed_on(out0, in0, out1, in1, live1, members, c, k, pd, td),
        m < c,
        !(m < live1.len() && live1[m as int]),
        !pd.contains(m),
        !td.contains(m),
    ensures
        out1[m as int] == out0[m as int],
        in1[m as int] == in0[m as int],
{
    lemma_times_dead(in0, members, live1, k, m);
    lemma_times_dead(out0, members, live1, k, m);
    assert(out1[m as int] == out0[m as int] + copies(
        c as usize,
        times(in0, members, live1, k, m) + one_if(pd.contains(m)),
    ));
    assert(in1[m as int] == in0[m as int] + copies(
        c as usize,
        times(out0, members, live1, k, m) + one_if(td.contains(m)),
    ));
    assert(out0[m as int] + copies(c as usize, 0) =~= out0[m as int]);
    assert(in0[m as int] + copies(c as usize, 0) =~= in0[m as int]);
}

} // verus!
