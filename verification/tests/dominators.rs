use flow_recovery::util::graph::{dominates, Graph};

fn build(n_real: usize, edges: &[(usize, usize)]) -> Graph<u32> {
    let mut g: Graph<u32> = Graph::default();
    for i in 0..n_real {
        g.add_vert(i as u32);
    }
    for &(a, b) in edges {
        assert!(g.link(a, b).is_ok());
    }
    g
}

fn reach_without(n: usize, edges: &[(usize, usize)], start: usize, removed: Option<usize>) -> Vec<bool> {
    let mut seen = vec![false; n];
    if Some(start) == removed {
        return seen;
    }
    let mut work = vec![start];
    seen[start] = true;
    while let Some(x) = work.pop() {
        for &(a, b) in edges {
            if a == x && Some(b) != removed && !seen[b] {
                seen[b] = true;
                work.push(b);
            }
        }
    }
    seen
}

/// dom[d][v]: d lies on every path from start to v (for reachable v).
fn brute_dominators(n: usize, edges: &[(usize, usize)], start: usize) -> (Vec<bool>, Vec<Vec<bool>>) {
    let reach = reach_without(n, edges, start, None);
    let mut dom = vec![vec![false; n]; n];
    for d in 0..n {
        let r = reach_without(n, edges, start, Some(d));
        for v in 0..n {
            dom[d][v] = reach[v] && (d == v || !r[v]);
        }
    }
    (reach, dom)
}

fn check_against_brute_force(n: usize, edges: &[(usize, usize)], fwd: bool) {
    let g = build(n - 2, edges);
    let idom = g.compute_dom_tree(fwd);
    assert_eq!(idom.len(), n);
    let start = if fwd { g.root() } else { g.term() };
    let directed: Vec<(usize, usize)> =
        if fwd { edges.to_vec() } else { edges.iter().map(|&(a, b)| (b, a)).collect() };
    let (reach, dom) = brute_dominators(n, &directed, start);
    assert_eq!(idom[start], start);
    for v in 0..n {
        if !reach[v] {
            assert_eq!(idom[v], v, "unreachable vertex {} holds itself", v);
            continue;
        }
        if v == start {
            continue;
        }
        let i = idom[v];
        assert_ne!(i, v);
        assert!(dom[i][v], "idom[{}] = {} dominates it", v, i);
        for d in 0..n {
            if d != v && dom[d][v] {
                assert!(dom[d][i], "dominator {} of {} dominates idom {}", d, v, i);
            }
            // the tree walk agrees with dominance
            assert_eq!(dominates(&idom, d, v), dom[d][v], "dominates({}, {})", d, v);
        }
    }
}

#[test]
fn dom_tree_of_a_line() {
    let g = build(3, &[(0, 2), (2, 3), (3, 4), (4, 1)]);
    assert_eq!(g.compute_dom_tree(true), vec![0, 4, 0, 2, 3]);
    assert_eq!(g.compute_dom_tree(false), vec![2, 1, 3, 4, 1]);
}

#[test]
fn dom_tree_of_a_diamond() {
    // 0 -> 2 -> {3, 4} -> 5 -> 1
    let edges = [(0, 2), (2, 3), (2, 4), (3, 5), (4, 5), (5, 1)];
    let g = build(4, &edges);
    assert_eq!(g.compute_dom_tree(true), vec![0, 5, 0, 2, 2, 2]);
    assert_eq!(g.compute_dom_tree(false), vec![2, 1, 5, 5, 5, 1]);
}

#[test]
fn dom_tree_leaves_unreachable_vertices_alone() {
    // vertex 4 has an edge into the flow but cannot be reached
    let edges = [(0, 2), (2, 3), (4, 3), (3, 1)];
    let g = build(3, &edges);
    assert_eq!(g.compute_dom_tree(true), vec![0, 3, 0, 2, 4]);
}

#[test]
fn dom_tree_of_the_empty_graph() {
    let g: Graph<u32> = Graph::default();
    assert_eq!(g.compute_dom_tree(true), vec![0, 1]);
    assert_eq!(g.compute_dom_tree(false), vec![0, 1]);
}

#[test]
fn dom_tree_needs_deferred_resolution() {
    // the classical example of Lengauer and Tarjan, vertices shifted by two
    // R=2 A=3 B=4 C=5 D=6 E=7 F=8 G=9 H=10 I=11 J=12 K=13 L=14
    let edges = [
        (0, 2),
        (2, 3), (2, 4), (2, 5),
        (3, 6),
        (4, 3), (4, 6), (4, 7),
        (5, 8), (5, 9),
        (6, 14),
        (7, 10),
        (8, 11),
        (9, 11), (9, 12),
        (10, 7), (10, 13),
        (11, 13),
        (12, 11),
        (13, 11), (13, 2),
        (14, 10),
    ];
    let g = build(13, &edges);
    let idom = g.compute_dom_tree(true);
    // idom: A,B,C,D,E,H,I,K -> R; F,G -> C; J -> G; L -> D
    assert_eq!(idom, vec![0, 1, 0, 2, 2, 2, 2, 2, 5, 5, 2, 2, 9, 2, 6]);
    check_against_brute_force(15, &edges, true);
    check_against_brute_force(15, &edges, false);
}

#[test]
fn dom_tree_agrees_with_brute_force_on_small_graphs() {
    let mut state: u64 = 0x2545F4914F6CDD1D;
    let mut next = |m: usize| -> usize {
        state ^= state << 13;
        state ^= state >> 7;
        state ^= state << 17;
        (state % (m as u64)) as usize
    };
    for round in 0..300 {
        let n = 3 + next(10);
        let m = next(3 * n);
        let mut edges = vec![(0usize, 2usize)];
        for _ in 0..m {
            let a = next(n);
            let b = next(n);
            edges.push((a, b));
        }
        if round % 2 == 0 {
            edges.push((2 + next(n - 2), 1));
        }
        check_against_brute_force(n, &edges, true);
        check_against_brute_force(n, &edges, false);
    }
}

#[test]
fn dominates_is_transitive_on_a_tree() {
    let tree = vec![0usize, 0, 1, 1, 3, 4, 2];
    for n in 0..7 {
        for m in 0..7 {
            for p in 0..7 {
                if dominates(&tree, n, m) && dominates(&tree, m, p) {
                    assert!(dominates(&tree, n, p));
                }
            }
        }
    }
    assert!(dominates(&tree, 1, 5));
    assert!(dominates(&tree, 5, 5));
    assert!(!dominates(&tree, 2, 5));
    assert!(!dominates(&tree, 9, 5));
}
