//! Parent-pointer forests over a dense index space.
//!
//! A forest is a sequence `t` in which `t[v]` is the parent of `v` and a
//! vertex that is its own parent is the top of its tree. Both the
//! disjoint-set structure and dominator trees are read through this model.

use vstd::prelude::*;

verus! {

/// Every parent pointer stays inside the index space.
pub open spec fn in_range(t: Seq<usize>) -> bool {
    forall|v: int| 0 <= v < t.len() ==> #[trigger] t[v] < t.len()
}

/// The vertex reached from `v` after `k` parent steps. Outside the index
/// space the walk stays where it is.
pub open spec fn walk(t: Seq<usize>, v: int, k: nat) -> int
    decreases k,
{
    if k == 0 || !(0 <= v < t.len()) {
        v
    } else {
        walk(t, t[v] as int, (k - 1) as nat)
    }
}

/// `v` is its own parent.
pub open spec fn is_top(t: Seq<usize>, v: int) -> bool {
    0 <= v < t.len() && t[v] == v
}

/// Some number of parent steps from `v` ends at a top.
pub open spec fn reaches_top(t: Seq<usize>, v: int) -> bool {
    exists|k: nat| is_top(t, #[trigger] walk(t, v, k))
}

/// Parent pointers are in range and no chain of them runs forever.
pub open spec fn is_forest(t: Seq<usize>) -> bool {
    &&& in_range(t)
    &&& forall|v: int| 0 <= v < t.len() ==> #[trigger] reaches_top(t, v)
}

/// The top of the tree that holds `v`.
pub open spec fn top_of(t: Seq<usize>, v: int) -> int {
    walk(t, v, choose|k: nat| is_top(t, #[trigger] walk(t, v, k)))
}

/// `a` lies on the parent chain that starts at `v` (`v` itself included).
pub open spec fn ancestor(t: Seq<usize>, a: int, v: int) -> bool {
    exists|k: nat| #[trigger] walk(t, v, k) == a
}

/// One more step from `v` is as many steps from its parent.
pub proof fn lemma_walk_step(t: Seq<usize>, v: int, k: nat)
    requires
        0 <= v < t.len(),
    ensures
        walk(t, v, k + 1) == walk(t, t[v] as int, k),
{
    reveal_with_fuel(walk, 2);
}

/// A walk from a vertex of the forest stays in the forest.
pub proof fn lemma_walk_in_range(t: Seq<usize>, v: int, k: nat)
    requires
        in_range(t),
        0 <= v < t.len(),
    ensures
        0 <= walk(t, v, k) < t.len(),
    decreases k,
{
    if k > 0 {
        lemma_walk_in_range(t, t[v] as int, (k - 1) as nat);
    }
}

/// A walk of `j + k` steps is one of `j` steps followed by one of `k`.
pub proof fn lemma_walk_add(t: Seq<usize>, v: int, j: nat, k: nat)
    ensures
        walk(t, v, j + k) == walk(t, walk(t, v, j), k),
    decreases j,
{
    if j == 0 {
    } else if !(0 <= v < t.len()) {
        lemma_walk_outside(t, v, j);
        lemma_walk_outside(t, v, j + k);
        lemma_walk_outside(t, v, k);
    } else {
        lemma_walk_add(t, t[v] as int, (j - 1) as nat, k);
    }
}

/// A walk that starts outside the index space stays where it is.
pub proof fn lemma_walk_outside(t: Seq<usize>, v: int, k: nat)
    requires
        !(0 <= v < t.len()),
    ensures
        walk(t, v, k) == v,
{
}

/// A walk from a top stays at the top.
pub proof fn lemma_top_fixed(t: Seq<usize>, r: int, k: nat)
    requires
        is_top(t, r),
    ensures
        walk(t, r, k) == r,
    decreases k,
{
    if k > 0 {
        lemma_top_fixed(t, r, (k - 1) as nat);
    }
}

/// Two walks from one vertex that both end at a top end at the same top.
pub proof fn lemma_top_unique(t: Seq<usize>, v: int, j: nat, k: nat)
    requires
        is_top(t, walk(t, v, j)),
        is_top(t, walk(t, v, k)),
    ensures
        walk(t, v, j) == walk(t, v, k),
{
    if j <= k {
        lemma_walk_add(t, v, j, (k - j) as nat);
        lemma_top_fixed(t, walk(t, v, j), (k - j) as nat);
    } else {
        lemma_walk_add(t, v, k, (j - k) as nat);
        lemma_top_fixed(t, walk(t, v, k), (j - k) as nat);
    }
}

/// Whatever walk from `v` ends at a top, it ends at `top_of(t, v)`.
pub proof fn lemma_top_of(t: Seq<usize>, v: int, k: nat)
    requires
        is_top(t, walk(t, v, k)),
    ensures
        top_of(t, v) == walk(t, v, k),
        is_top(t, top_of(t, v)),
{
    let c = choose|c: nat| is_top(t, #[trigger] walk(t, v, c));
    lemma_top_unique(t, v, c, k);
}

/// The top of a vertex that reaches one is a top, and an ancestor of the
/// vertex.
pub proof fn lemma_top_of_is_top(t: Seq<usize>, v: int)
    requires
        reaches_top(t, v),
    ensures
        is_top(t, top_of(t, v)),
        ancestor(t, top_of(t, v), v),
{
    let c = choose|c: nat| is_top(t, #[trigger] walk(t, v, c));
    lemma_top_of(t, v, c);
}

/// A top is its own top.
pub proof fn lemma_top_of_top(t: Seq<usize>, r: int)
    requires
        is_top(t, r),
    ensures
        top_of(t, r) == r,
{
    assert(walk(t, r, 0) == r);
    lemma_top_of(t, r, 0);
}

/// A vertex that is no top shares its top with its parent.
pub proof fn lemma_top_of_parent(t: Seq<usize>, v: int)
    requires
        0 <= v < t.len(),
        reaches_top(t, v),
        t[v] != v,
    ensures
        reaches_top(t, t[v] as int),
        top_of(t, v) == top_of(t, t[v] as int),
{
    let c = choose|c: nat| is_top(t, #[trigger] walk(t, v, c));
    assert(c > 0);
    lemma_walk_step(t, v, (c - 1) as nat);
    lemma_top_of(t, v, c);
    lemma_top_of(t, t[v] as int, (c - 1) as nat);
}

/// Every ancestor of `v` has the same top as `v`.
pub proof fn lemma_top_of_walk(t: Seq<usize>, v: int, j: nat)
    requires
        reaches_top(t, v),
    ensures
        reaches_top(t, walk(t, v, j)),
        top_of(t, walk(t, v, j)) == top_of(t, v),
{
    let c = choose|c: nat| is_top(t, #[trigger] walk(t, v, c));
    lemma_top_of(t, v, c);
    if j <= c {
        lemma_walk_add(t, v, j, (c - j) as nat);
        lemma_top_of(t, walk(t, v, j), (c - j) as nat);
    } else {
        lemma_walk_add(t, v, c, (j - c) as nat);
        lemma_top_fixed(t, walk(t, v, c), (j - c) as nat);
        lemma_top_of_top(t, walk(t, v, j));
        assert(walk(t, walk(t, v, j), 0) == walk(t, v, j));
    }
}

/// Every vertex is an ancestor of itself.
pub proof fn lemma_ancestor_self(t: Seq<usize>, v: int)
    ensures
        ancestor(t, v, v),
{
    assert(walk(t, v, 0) == v);
}

/// The ancestor relation is transitive.
pub proof fn lemma_ancestor_transitive(t: Seq<usize>, a: int, b: int, c: int)
    requires
        ancestor(t, a, b),
        ancestor(t, b, c),
    ensures
        ancestor(t, a, c),
{
    let j = choose|j: nat| #[trigger] walk(t, c, j) == b;
    let k = choose|k: nat| #[trigger] walk(t, b, k) == a;
    lemma_walk_add(t, c, j, k);
}

/// The ancestors of a vertex that is no top are the vertex and the ancestors
/// of its parent.
pub proof fn lemma_ancestor_unfold(t: Seq<usize>, a: int, v: int)
    requires
        0 <= v < t.len(),
    ensures
        ancestor(t, a, v) <==> (a == v || ancestor(t, a, t[v] as int)),
{
    if ancestor(t, a, v) && a != v {
        let k = choose|k: nat| #[trigger] walk(t, v, k) == a;
        lemma_walk_step(t, v, (k - 1) as nat);
        assert(walk(t, t[v] as int, (k - 1) as nat) == a);
    }
    if ancestor(t, a, t[v] as int) {
        let k = choose|k: nat| #[trigger] walk(t, t[v] as int, k) == a;
        lemma_walk_step(t, v, k);
        assert(walk(t, v, k + 1) == a);
    }
    lemma_ancestor_self(t, v);
}

/// A vertex on a cycle of parent steps that also reaches a top is that top.
pub proof fn lemma_cycle_is_top(t: Seq<usize>, v: int, p: nat, c: nat)
    requires
        p >= 1,
        walk(t, v, p) == v,
        is_top(t, walk(t, v, c)),
    ensures
        is_top(t, v),
    decreases c,
{
    if c <= p {
        lemma_walk_add(t, v, c, (p - c) as nat);
        lemma_top_fixed(t, walk(t, v, c), (p - c) as nat);
    } else {
        lemma_walk_add(t, v, p, (c - p) as nat);
        lemma_cycle_is_top(t, v, p, (c - p) as nat);
    }
}

/// In a forest a vertex that is no top is not an ancestor of its parent.
pub proof fn lemma_not_above_parent(t: Seq<usize>, v: int)
    requires
        0 <= v < t.len(),
        reaches_top(t, v),
        t[v] != v,
    ensures
        !ancestor(t, v, t[v] as int),
{
    if ancestor(t, v, t[v] as int) {
        let j = choose|j: nat| #[trigger] walk(t, t[v] as int, j) == v;
        lemma_walk_step(t, v, j);
        let c = choose|c: nat| is_top(t, #[trigger] walk(t, v, c));
        lemma_cycle_is_top(t, v, j + 1, c);
    }
}

/// The only ancestor of a top is the top itself.
pub proof fn lemma_ancestor_of_top(t: Seq<usize>, a: int, r: int)
    requires
        is_top(t, r),
        ancestor(t, a, r),
    ensures
        a == r,
{
    let k = choose|k: nat| #[trigger] walk(t, r, k) == a;
    lemma_top_fixed(t, r, k);
}

/// Pointing `x` straight at the top of its own tree keeps every walk's end:
/// the walk from `v` that ended at a top in `t` has a counterpart in the
/// updated forest that ends at the same top.
pub proof fn lemma_redirect_walk(t: Seq<usize>, x: int, v: int, k: nat) -> (k2: nat)
    requires
        in_range(t),
        0 <= x < t.len(),
        0 <= v < t.len(),
        reaches_top(t, x),
        is_top(t, walk(t, v, k)),
    ensures
        walk(t.update(x, top_of(t, x) as usize), v, k2) == walk(t, v, k),
        is_top(t.update(x, top_of(t, x) as usize), walk(t, v, k)),
    decreases k,
{
    let r = top_of(t, x);
    let t2 = t.update(x, r as usize);
    lemma_top_of_is_top(t, x);
    if t[v] == v {
        lemma_top_fixed(t, v, k);
        if v == x {
            lemma_top_of_top(t, x);
        }
        assert(walk(t2, v, 0) == v);
        0
    } else if v == x {
        lemma_top_of(t, v, k);
        assert(r != x);
        assert(t2[r] == r);
        lemma_walk_step(t2, x, 0);
        assert(walk(t2, r, 0) == r);
        1
    } else {
        lemma_walk_step(t, v, (k - 1) as nat);
        let k1 = lemma_redirect_walk(t, x, t[v] as int, (k - 1) as nat);
        lemma_walk_step(t2, v, k1);
        k1 + 1
    }
}

/// Pointing `x` straight at the top of its own tree leaves a forest in which
/// every vertex has the top it had before.
pub proof fn lemma_redirect(t: Seq<usize>, x: int)
    requires
        is_forest(t),
        0 <= x < t.len(),
    ensures
        is_forest(t.update(x, top_of(t, x) as usize)),
        forall|v: int|
            0 <= v < t.len() ==> #[trigger] top_of(t.update(x, top_of(t, x) as usize), v)
                == top_of(t, v),
{
    assert(reaches_top(t, x));
    lemma_top_of_is_top(t, x);
    let t2 = t.update(x, top_of(t, x) as usize);
    assert forall|v: int| 0 <= v < t.len() implies #[trigger] reaches_top(t2, v) by {
        lemma_redirect_at(t, x, v);
    }
    assert forall|v: int| 0 <= v < t.len() implies #[trigger] top_of(t2, v) == top_of(t, v) by {
        lemma_redirect_at(t, x, v);
    }
    assert forall|v: int| 0 <= v < t2.len() implies #[trigger] t2[v] < t2.len() by {
        if v != x {
            assert(t2[v] == t[v]);
        }
    }
}

proof fn lemma_redirect_at(t: Seq<usize>, x: int, v: int)
    requires
        is_forest(t),
        0 <= x < t.len(),
        0 <= v < t.len(),
    ensures
        reaches_top(t.update(x, top_of(t, x) as usize), v),
        top_of(t.update(x, top_of(t, x) as usize), v) == top_of(t, v),
{
    assert(reaches_top(t, x));
    assert(reaches_top(t, v));
    let c = choose|c: nat| is_top(t, #[trigger] walk(t, v, c));
    lemma_top_of(t, v, c);
    let k2 = lemma_redirect_walk(t, x, v, c);
    lemma_top_of(t.update(x, top_of(t, x) as usize), v, k2);
}

/// In a forest the top of every vertex is a top.
pub proof fn lemma_forest_tops(t: Seq<usize>)
    requires
        is_forest(t),
    ensures
        forall|v: int| 0 <= v < t.len() ==> is_top(t, #[trigger] top_of(t, v)),
{
    assert forall|v: int| 0 <= v < t.len() implies is_top(t, #[trigger] top_of(t, v)) by {
        assert(reaches_top(t, v));
        lemma_top_of_is_top(t, v);
    }
}

/// Hanging the top `a` under another top `b` moves every walk that ended at
/// `a` on to `b` and keeps the end of every other walk.
pub proof fn lemma_attach_walk(t: Seq<usize>, a: int, b: int, v: int, k: nat) -> (k2: nat)
    requires
        in_range(t),
        is_top(t, a),
        is_top(t, b),
        a != b,
        0 <= v < t.len(),
        is_top(t, walk(t, v, k)),
    ensures
        walk(t.update(a, b as usize), v, k2) == (if walk(t, v, k) == a {
            b
        } else {
            walk(t, v, k)
        }),
        is_top(t.update(a, b as usize), walk(t.update(a, b as usize), v, k2)),
    decreases k,
{
    let t2 = t.update(a, b as usize);
    if t[v] == v {
        lemma_top_fixed(t, v, k);
        if v == a {
            lemma_walk_step(t2, a, 0);
            assert(walk(t2, b, 0) == b);
            assert(t2[b] == b);
            1
        } else {
            assert(walk(t2, v, 0) == v);
            assert(t2[v] == v);
            0
        }
    } else {
        lemma_walk_step(t, v, (k - 1) as nat);
        let k1 = lemma_attach_walk(t, a, b, t[v] as int, (k - 1) as nat);
        lemma_walk_step(t2, v, k1);
        k1 + 1
    }
}

/// Hanging the top `a` under another top `b` leaves a forest in which the
/// vertices of `a`'s tree have the top `b` and all others keep theirs.
pub proof fn lemma_attach(t: Seq<usize>, a: int, b: int)
    requires
        is_forest(t),
        is_top(t, a),
        is_top(t, b),
        a != b,
    ensures
        is_forest(t.update(a, b as usize)),
        forall|v: int|
            0 <= v < t.len() ==> #[trigger] top_of(t.update(a, b as usize), v) == (if top_of(t, v)
                == a {
                b
            } else {
                top_of(t, v)
            }),
{
    let t2 = t.update(a, b as usize);
    assert forall|v: int| 0 <= v < t.len() implies #[trigger] reaches_top(t2, v) by {
        lemma_attach_at(t, a, b, v);
    }
    assert forall|v: int| 0 <= v < t.len() implies #[trigger] top_of(t2, v) == (if top_of(t, v)
        == a {
        b
    } else {
        top_of(t, v)
    }) by {
        lemma_attach_at(t, a, b, v);
    }
    assert forall|v: int| 0 <= v < t2.len() implies #[trigger] t2[v] < t2.len() by {
        if v != a {
            assert(t2[v] == t[v]);
        }
    }
}

proof fn lemma_attach_at(t: Seq<usize>, a: int, b: int, v: int)
    requires
        is_forest(t),
        is_top(t, a),
        is_top(t, b),
        a != b,
        0 <= v < t.len(),
    ensures
        reaches_top(t.update(a, b as usize), v),
        top_of(t.update(a, b as usize), v) == (if top_of(t, v) == a {
            b
        } else {
            top_of(t, v)
        }),
{
    assert(reaches_top(t, v));
    let c = choose|c: nat| is_top(t, #[trigger] walk(t, v, c));
    lemma_top_of(t, v, c);
    let k2 = lemma_attach_walk(t, a, b, v, c);
    lemma_top_of(t.update(a, b as usize), v, k2);
}

/// In a forest two vertices that are ancestors of each other are one vertex.
pub proof fn lemma_ancestor_antisym(t: Seq<usize>, a: int, b: int)
    requires
        reaches_top(t, a),
        ancestor(t, a, b),
        ancestor(t, b, a),
    ensures
        a == b,
{
    let j = choose|j: nat| #[trigger] walk(t, a, j) == b;
    let k = choose|k: nat| #[trigger] walk(t, b, k) == a;
    lemma_walk_add(t, a, j, k);
    if j + k >= 1 {
        let c = choose|c: nat| is_top(t, #[trigger] walk(t, a, c));
        lemma_cycle_is_top(t, a, j + k, c);
        lemma_top_fixed(t, a, j);
    } else {
        assert(walk(t, a, 0) == a);
    }
}

/// A proper ancestor `a` of `v` has a child on the way down to `v`.
pub proof fn lemma_child_toward(t: Seq<usize>, a: int, v: int, k: nat) -> (c: int)
    requires
        in_range(t),
        0 <= v < t.len(),
        walk(t, v, k) == a,
        a != v,
    ensures
        0 <= c < t.len(),
        t[c] == a,
        c != a,
        ancestor(t, c, v),
    decreases k,
{
    lemma_walk_step(t, v, (k - 1) as nat);
    if t[v] == a {
        lemma_ancestor_self(t, v);
        v
    } else {
        let c = lemma_child_toward(t, a, t[v] as int, (k - 1) as nat);
        lemma_ancestor_unfold(t, c, v);
        c
    }
}

/// Every ancestor of a vertex of a forest is a vertex of the forest.
pub proof fn lemma_ancestor_in_range(t: Seq<usize>, a: int, v: int)
    requires
        in_range(t),
        0 <= v < t.len(),
        ancestor(t, a, v),
    ensures
        0 <= a < t.len(),
{
    let k = choose|k: nat| #[trigger] walk(t, v, k) == a;
    lemma_walk_in_range(t, v, k);
}

/// A forest in which every vertex that is not its own parent has a parent of
/// smaller rank.
pub proof fn lemma_ranked_is_forest(t: Seq<usize>, rank: Seq<nat>)
    requires
        rank.len() == t.len(),
        forall|v: int|
            0 <= v < t.len() ==> (#[trigger] t[v]) < t.len() && (t[v] == v || rank[t[v] as int]
                < rank[v]),
    ensures
        is_forest(t),
{
    assert forall|v: int| 0 <= v < t.len() implies #[trigger] reaches_top(t, v) by {
        let k = lemma_ranked_reaches_top(t, rank, v);
    }
}

proof fn lemma_ranked_reaches_top(t: Seq<usize>, rank: Seq<nat>, v: int) -> (k: nat)
    requires
        rank.len() == t.len(),
        forall|v: int|
            0 <= v < t.len() ==> (#[trigger] t[v]) < t.len() && (t[v] == v || rank[t[v] as int]
                < rank[v]),
        0 <= v < t.len(),
    ensures
        is_top(t, walk(t, v, k)),
    decreases rank[v],
{
    if t[v] == v {
        assert(walk(t, v, 0) == v);
        0
    } else {
        let k = lemma_ranked_reaches_top(t, rank, t[v] as int);
        lemma_walk_step(t, v, k);
        k + 1
    }
}

} // verus!
