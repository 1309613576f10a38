//! Union-find with path compression over a dense index space.

use crate::util::forest::{
    ancestor, is_forest, is_top, lemma_ancestor_of_top, lemma_ancestor_self,
    lemma_ancestor_transitive, lemma_ancestor_unfold, lemma_attach, lemma_forest_tops,
    lemma_not_above_parent, lemma_redirect, lemma_top_of, lemma_top_of_is_top, lemma_top_of_parent,
    lemma_top_of_top, lemma_top_of_walk, lemma_walk_step, reaches_top, top_of, walk,
};
use vstd::prelude::*;

verus! {

/// A partition of `0..len` into disjoint sets, each named by a representative.
///
/// The structure is a parent-pointer forest; its view maps every element to the
/// representative of its set, the top of its tree.
pub struct DisjointSet {
    tree: Vec<usize>,
}

/// The parent array after every vertex on the parent chain of `v` has been
/// pointed straight at the top of that chain.
pub open spec fn compressed(t: Seq<usize>, v: int) -> Seq<usize> {
    Seq::new(
        t.len(),
        |x: int|
            if ancestor(t, x, v) {
                top_of(t, v) as usize
            } else {
                t[x]
            },
    )
}

/// The representatives after the set of `from` has been united into the set of
/// `to`: what was named like `from` is now named like `to`.
pub open spec fn merged(reps: Seq<usize>, from: int, to: int) -> Seq<usize> {
    Seq::new(
        reps.len(),
        |x: int|
            if reps[x] == reps[from] {
                reps[to]
            } else {
                reps[x]
            },
    )
}

/// The representatives of `n` singleton sets.
pub open spec fn singletons(n: nat) -> Seq<usize> {
    Seq::new(n, |v: int| v as usize)
}

impl View for DisjointSet {
    type V = Seq<usize>;

    /// Element `v` mapped to the representative of its set.
    closed spec fn view(&self) -> Seq<usize> {
        Seq::new(self.tree@.len(), |v: int| top_of(self.tree@, v) as usize)
    }
}

impl DisjointSet {
    /// The raw parent pointers.
    pub closed spec fn parents(&self) -> Seq<usize> {
        self.tree@
    }

    /// The parent pointers form a forest.
    pub open spec fn wf(&self) -> bool {
        is_forest(self.parents())
    }

    /// The view reads the tops of the parent forest.
    pub proof fn lemma_view(&self)
        ensures
            self@.len() == self.parents().len(),
            forall|v: int|
                0 <= v < self@.len() ==> #[trigger] self@[v] == top_of(self.parents(), v) as usize,
    {
    }

    /// `size` singleton sets.
    pub fn new(size: usize) -> (s: DisjointSet)
        ensures
            s.wf(),
            s.parents() == singletons(size as nat),
            s@ == singletons(size as nat),
    {
        let mut tree: Vec<usize> = Vec::new();
        let mut i: usize = 0;
        while i < size
            invariant
                i <= size,
                tree@.len() == i,
                forall|j: int| 0 <= j < i ==> #[trigger] tree@[j] == j,
            decreases size - i,
        {
            tree.push(i);
            i += 1;
        }
        let s = DisjointSet { tree };
        proof {
            assert(s.tree@ =~= singletons(size as nat));
            assert forall|v: int| 0 <= v < s.tree@.len() implies #[trigger] reaches_top(
                s.tree@,
                v,
            ) by {
                assert(is_top(s.tree@, walk(s.tree@, v, 0)));
            }
            assert forall|v: int| 0 <= v < s.tree@.len() implies #[trigger] top_of(s.tree@, v)
                == v by {
                lemma_top_of_top(s.tree@, v);
            }
            assert(s@ =~= singletons(size as nat));
        }
        s
    }

    /// Whether `v` is the representative of its set.
    pub fn isroot(&self, v: usize) -> (r: bool)
        requires
            self.wf(),
            v < self@.len(),
        ensures
            r == (self@[v as int] == v),
            r == (self.parents()[v as int] == v),
    {
        proof {
            lemma_top_of_is_top(self.tree@, v as int);
            if self.tree@[v as int] == v {
                lemma_top_of_top(self.tree@, v as int);
            }
        }
        self.tree[v] == v
    }

    /// The representative of the set that holds `v`.
    pub fn root(&self, v: usize) -> (r: usize)
        requires
            self.wf(),
            v < self@.len(),
        ensures
            r == self@[v as int],
    {
        let mut cur: usize = v;
        let ghost mut k: nat = choose|k: nat|
            is_top(self.tree@, #[trigger] walk(self.tree@, v as int, k));
        proof {
            assert(reaches_top(self.tree@, v as int));
            lemma_top_of(self.tree@, v as int, k);
        }
        while !self.isroot(cur)
            invariant
                self.wf(),
                cur < self@.len(),
                is_top(self.tree@, walk(self.tree@, cur as int, k)),
                top_of(self.tree@, cur as int) == top_of(self.tree@, v as int),
            decreases k,
        {
            proof {
                lemma_top_of_parent(self.tree@, cur as int);
                lemma_walk_step(self.tree@, cur as int, (k - 1) as nat);
                k = (k - 1) as nat;
            }
            cur = self.tree[cur];
        }
        proof {
            lemma_top_of_top(self.tree@, cur as int);
        }
        cur
    }

    /// The representative of the set that holds `v`; every element on the way
    /// to it is left pointing straight at it. The partition is unchanged.
    pub fn root_compress(&mut self, v: usize) -> (r: usize)
        requires
            old(self).wf(),
            v < old(self)@.len(),
        ensures
            final(self).wf(),
            final(self)@ == old(self)@,
            final(self).parents() == compressed(old(self).parents(), v as int),
            r == old(self)@[v as int],
    {
        self.compress(v);
        proof {
            lemma_ancestor_self(old(self).tree@, v as int);
            lemma_top_of_is_top(old(self).tree@, v as int);
        }
        self.tree[v]
    }

    /// Unites the set of `from` into the set of `to`: after compressing both
    /// chains, the representative of `from` is hung under that of `to`.
    pub fn link(&mut self, from: usize, to: usize)
        requires
            old(self).wf(),
            from < old(self)@.len(),
            to < old(self)@.len(),
        ensures
            final(self).wf(),
            final(self)@ == merged(old(self)@, from as int, to as int),
            final(self).parents() == compressed(
                compressed(old(self).parents(), from as int),
                to as int,
            ).update(old(self)@[from as int] as int, old(self)@[to as int]),
    {
        let fr = self.root_compress(from);
        let tr = self.root_compress(to);
        let ghost t2 = self.tree@;
        proof {
            lemma_top_of_is_top(old(self).tree@, from as int);
            lemma_top_of_is_top(old(self).tree@, to as int);
            lemma_top_of_top(old(self).tree@, fr as int);
            lemma_top_of_top(old(self).tree@, tr as int);
            assert(self@[fr as int] == fr);
            assert(self@[tr as int] == tr);
            lemma_top_of_is_top(t2, fr as int);
            lemma_top_of_is_top(t2, tr as int);
        }
        let p = self.tree[tr];
        self.tree[fr] = p;
        proof {
            assert(self.tree@ == t2.update(fr as int, tr));
            lemma_forest_tops(t2);
            lemma_forest_tops(old(self).tree@);
            if fr == tr {
                assert(self.tree@ =~= t2);
            } else {
                lemma_attach(t2, fr as int, tr as int);
            }
            assert(self@ =~= merged(old(self)@, from as int, to as int));
        }
    }

    fn compress(&mut self, v: usize)
        requires
            old(self).wf(),
            v < old(self)@.len(),
        ensures
            final(self).wf(),
            final(self)@ == old(self)@,
            final(self).parents() == compressed(old(self).parents(), v as int),
    {
        let r = self.root(v);
        let ghost t0 = self.tree@;
        let ghost mut k: nat = choose|k: nat| is_top(t0, #[trigger] walk(t0, v as int, k));
        let mut cur: usize = v;
        proof {
            assert(reaches_top(t0, v as int));
            lemma_ancestor_self(t0, v as int);
            lemma_top_of_is_top(t0, v as int);
        }
        while self.tree[cur] != r
            invariant
                t0 == old(self).tree@,
                is_forest(t0),
                is_forest(self.tree@),
                self.tree@.len() == t0.len(),
                cur < t0.len(),
                v < t0.len(),
                r == top_of(t0, v as int),
                is_top(t0, r as int),
                ancestor(t0, cur as int, v as int),
                is_top(t0, walk(t0, cur as int, k)),
                forall|x: int|
                    0 <= x < t0.len() ==> #[trigger] self.tree@[x] == (if ancestor(t0, x, v as int)
                        && !ancestor(t0, x, cur as int) {
                        r
                    } else {
                        t0[x]
                    }),
                forall|x: int|
                    0 <= x < t0.len() ==> #[trigger] top_of(self.tree@, x) == top_of(t0, x),
            decreases k,
        {
            let ghost t1 = self.tree@;
            let nxt = self.tree[cur];
            proof {
                lemma_ancestor_self(t0, cur as int);
                assert(nxt == t0[cur as int]);
                let j = choose|j: nat| #[trigger] walk(t0, v as int, j) == cur as int;
                lemma_top_of_walk(t0, v as int, j);
                if t0[cur as int] == cur {
                    lemma_top_of_top(t0, cur as int);
                }
                assert(t0[cur as int] != cur);
                lemma_walk_step(t0, cur as int, (k - 1) as nat);
                lemma_not_above_parent(t0, cur as int);
                lemma_ancestor_self(t0, nxt as int);
                lemma_ancestor_unfold(t0, nxt as int, cur as int);
                lemma_ancestor_transitive(t0, nxt as int, cur as int, v as int);
                assert(top_of(t1, cur as int) == r);
                lemma_redirect(t1, cur as int);
                assert forall|x: int| 0 <= x < t0.len() implies (ancestor(t0, x, cur as int) <==> (x
                    == cur || ancestor(t0, x, nxt as int))) by {
                    lemma_ancestor_unfold(t0, x, cur as int);
                }
                k = (k - 1) as nat;
            }
            self.tree[cur] = r;
            cur = nxt;
        }
        proof {
            assert forall|x: int| 0 <= x < t0.len() implies #[trigger] self.tree@[x] == compressed(
                t0,
                v as int,
            )[x] by {
                if ancestor(t0, x, v as int) && ancestor(t0, x, cur as int) {
                    lemma_ancestor_self(t0, cur as int);
                    if x != cur {
                        lemma_ancestor_unfold(t0, x, cur as int);
                        lemma_ancestor_of_top(t0, x, r as int);
                    }
                }
            }
            assert(self.tree@ =~= compressed(t0, v as int));
            assert(self@ =~= old(self)@);
        }
    }
}

/// The representatives after a run of links on `n` singleton sets, each link
/// a pair `(from, to)`.
pub open spec fn reps_after(n: nat, links: Seq<(usize, usize)>) -> Seq<usize>
    decreases links.len(),
{
    if links.len() == 0 {
        singletons(n)
    } else {
        merged(reps_after(n, links.drop_last()), links.last().0 as int, links.last().1 as int)
    }
}

/// `x` and `y` are the two ends of one of the links.
pub open spec fn linked(links: Seq<(usize, usize)>, x: int, y: int) -> bool {
    exists|i: int|
        0 <= i < links.len() && {
            ||| (#[trigger] links[i]).0 == x && links[i].1 == y
            ||| links[i].0 == y && links[i].1 == x
        }
}

/// Each element of `c` is linked to the next.
pub open spec fn is_chain(links: Seq<(usize, usize)>, c: Seq<int>) -> bool {
    forall|i: int| 0 <= i < c.len() - 1 ==> linked(links, #[trigger] c[i], c[i + 1])
}

/// `a` and `b` were united, directly or through other elements.
pub open spec fn unioned(links: Seq<(usize, usize)>, a: int, b: int) -> bool {
    exists|c: Seq<int>| #[trigger] is_chain(links, c) && c.len() > 0 && c[0] == a && c.last() == b
}

/// Every link names elements of `0..n`.
pub open spec fn links_in_range(n: nat, links: Seq<(usize, usize)>) -> bool {
    forall|i: int| 0 <= i < links.len() ==> (#[trigger] links[i]).0 < n && links[i].1 < n
}

proof fn lemma_reps_len(n: nat, links: Seq<(usize, usize)>)
    ensures
        reps_after(n, links).len() == n,
    decreases links.len(),
{
    if links.len() > 0 {
        lemma_reps_len(n, links.drop_last());
    }
}

proof fn lemma_linked_same(n: nat, links: Seq<(usize, usize)>, x: int, y: int)
    requires
        links_in_range(n, links),
        linked(links, x, y),
    ensures
        0 <= x < n,
        0 <= y < n,
        reps_after(n, links)[x] == reps_after(n, links)[y],
    decreases links.len(),
{
    let i = choose|i: int|
        0 <= i < links.len() && {
            ||| (#[trigger] links[i]).0 == x && links[i].1 == y
            ||| links[i].0 == y && links[i].1 == x
        };
    let rest = links.drop_last();
    lemma_reps_len(n, rest);
    assert(links.last() == links[links.len() - 1]);
    assert(links_in_range(n, rest)) by {
        assert forall|j: int| 0 <= j < rest.len() implies (#[trigger] rest[j]).0 < n && rest[j].1
            < n by {
            assert(rest[j] == links[j]);
        }
    }
    if i < links.len() - 1 {
        assert(rest[i] == links[i]);
        lemma_linked_same(n, rest, x, y);
    }
}

proof fn lemma_chain_same(n: nat, links: Seq<(usize, usize)>, c: Seq<int>)
    requires
        links_in_range(n, links),
        is_chain(links, c),
        c.len() > 0,
    ensures
        reps_after(n, links)[c[0]] == reps_after(n, links)[c.last()],
    decreases c.len(),
{
    if c.len() > 1 {
        let d = c.drop_last();
        assert forall|i: int| 0 <= i < d.len() - 1 implies linked(links, #[trigger] d[i], d[i + 1]) by {
            assert(d[i] == c[i] && d[i + 1] == c[i + 1]);
        }
        lemma_chain_same(n, links, d);
        let i = c.len() - 2;
        assert(linked(links, c[i], c[i + 1]));
        lemma_linked_same(n, links, c[i], c[i + 1]);
    }
}

proof fn lemma_unioned_grows(links: Seq<(usize, usize)>, a: int, b: int)
    requires
        links.len() > 0,
        unioned(links.drop_last(), a, b),
    ensures
        unioned(links, a, b),
{
    let rest = links.drop_last();
    let c = choose|c: Seq<int>| #[trigger]
        is_chain(rest, c) && c.len() > 0 && c[0] == a && c.last() == b;
    assert forall|i: int| 0 <= i < c.len() - 1 implies linked(links, #[trigger] c[i], c[i + 1]) by {
        let j = choose|j: int|
            0 <= j < rest.len() && {
                ||| (#[trigger] rest[j]).0 == c[i] && rest[j].1 == c[i + 1]
                ||| rest[j].0 == c[i + 1] && rest[j].1 == c[i]
            };
        assert(links[j] == rest[j]);
    }
    assert(is_chain(links, c));
}

proof fn lemma_unioned_join(links: Seq<(usize, usize)>, a: int, f: int, t: int, b: int)
    requires
        unioned(links, a, f),
        linked(links, f, t),
        unioned(links, t, b),
    ensures
        unioned(links, a, b),
{
    let c1 = choose|c: Seq<int>| #[trigger]
        is_chain(links, c) && c.len() > 0 && c[0] == a && c.last() == f;
    let c2 = choose|c: Seq<int>| #[trigger]
        is_chain(links, c) && c.len() > 0 && c[0] == t && c.last() == b;
    let c = c1 + c2;
    assert forall|i: int| 0 <= i < c.len() - 1 implies linked(links, #[trigger] c[i], c[i + 1]) by {
        if i < c1.len() - 1 {
            assert(c[i] == c1[i] && c[i + 1] == c1[i + 1]);
        } else if i == c1.len() - 1 {
            assert(c[i] == f && c[i + 1] == c2[0]);
        } else {
            let j = i - c1.len();
            assert(c[i] == c2[j] && c[i + 1] == c2[j + 1]);
        }
    }
    assert(is_chain(links, c));
    assert(c[0] == c1[0]);
    assert(c.last() == c2.last());
}

proof fn lemma_same_unioned(n: nat, links: Seq<(usize, usize)>, a: int, b: int)
    requires
        n <= usize::MAX,
        links_in_range(n, links),
        0 <= a < n,
        0 <= b < n,
        reps_after(n, links)[a] == reps_after(n, links)[b],
    ensures
        unioned(links, a, b),
    decreases links.len(),
{
    lemma_reps_len(n, links);
    if links.len() == 0 {
        let c = seq![a];
        assert(is_chain(links, c));
        assert(c[0] == a && c.last() == b);
    } else {
        let rest = links.drop_last();
        let prev = reps_after(n, rest);
        let f = links.last().0 as int;
        let t = links.last().1 as int;
        lemma_reps_len(n, rest);
        assert(links.last() == links[links.len() - 1]);
        assert(links_in_range(n, rest)) by {
            assert forall|j: int| 0 <= j < rest.len() implies (#[trigger] rest[j]).0 < n
                && rest[j].1 < n by {
                assert(rest[j] == links[j]);
            }
        }
        assert(linked(links, f, t));
        if prev[a] == prev[b] {
            lemma_same_unioned(n, rest, a, b);
            lemma_unioned_grows(links, a, b);
        } else if prev[a] == prev[f] {
            lemma_same_unioned(n, rest, a, f);
            lemma_same_unioned(n, rest, t, b);
            lemma_unioned_grows(links, a, f);
            lemma_unioned_grows(links, t, b);
            lemma_unioned_join(links, a, f, t, b);
        } else {
            lemma_same_unioned(n, rest, a, t);
            lemma_same_unioned(n, rest, f, b);
            lemma_unioned_grows(links, a, t);
            lemma_unioned_grows(links, f, b);
            lemma_unioned_join(links, a, t, f, b);
        }
    }
}

/// After any run of links on singleton sets, two elements have the same
/// representative exactly when a chain of links joins them.
pub proof fn lemma_roots_equal_iff_unioned(n: nat, links: Seq<(usize, usize)>, a: int, b: int)
    requires
        n <= usize::MAX,
        links_in_range(n, links),
        0 <= a < n,
        0 <= b < n,
    ensures
        reps_after(n, links)[a] == reps_after(n, links)[b] <==> unioned(links, a, b),
{
    lemma_reps_len(n, links);
    if reps_after(n, links)[a] == reps_after(n, links)[b] {
        lemma_same_unioned(n, links, a, b);
    }
    if unioned(links, a, b) {
        let c = choose|c: Seq<int>| #[trigger]
            is_chain(links, c) && c.len() > 0 && c[0] == a && c.last() == b;
        lemma_chain_same(n, links, c);
    }
}

} // verus!
