use flow_recovery::util::graph::{Graph, PostorderIterator, PreorderIterator};

fn build(n_real: usize, edges: &[(usize, usize)]) -> Graph<u32> {
    let mut g: Graph<u32> = Graph::default();
    for i in 0..n_real {
        g.add_vert(i as u32);
    }
    for &(a, b) in edges {
        g.link(a, b).unwrap();
    }
    g
}

fn drain_postorder(g: &Graph<u32>, fwd: bool) -> Vec<usize> {
    let mut it = g.postorder_iter(fwd);
    let mut out = Vec::new();
    while let Some(v) = it.next(g) {
        out.push(v);
    }
    assert_eq!(it.next(g), None);
    out
}

#[test]
fn postorder_of_a_line_runs_from_the_end_back() {
    let g = build(3, &[(0, 2), (2, 3), (3, 4), (4, 1)]);
    assert_eq!(drain_postorder(&g, true), vec![1, 4, 3, 2, 0]);
}

#[test]
fn postorder_yields_descendants_before_ancestors() {
    // 0 -> 2 -> {3, 4}, 3 -> 5, 4 -> 5, 5 -> 1
    let g = build(4, &[(0, 2), (2, 3), (2, 4), (3, 5), (4, 5), (5, 1)]);
    let order = drain_postorder(&g, true);
    assert_eq!(order, vec![1, 5, 4, 3, 2, 0]);
    assert_eq!(g.postorder(true), order);
}

#[test]
fn postorder_of_a_connected_graph_yields_every_vertex_once() {
    let mut state: u64 = 0xD1B54A32D192ED03;
    let mut next = |m: usize| -> usize {
        state ^= state << 13;
        state ^= state >> 7;
        state ^= state << 17;
        (state % (m as u64)) as usize
    };
    for _ in 0..200 {
        let n = 2 + next(10);
        // a spanning chain makes every vertex reachable from the root
        let mut edges: Vec<(usize, usize)> = Vec::new();
        edges.push((0, 1));
        for v in 2..n {
            let from = if v == 2 { next(2) } else { next(v) };
            edges.push((from, v));
        }
        for _ in 0..next(2 * n) {
            edges.push((next(n), next(n)));
        }
        let g = build(n - 2, &edges);
        let order = drain_postorder(&g, true);
        assert_eq!(order.len(), n);
        let mut sorted = order.clone();
        sorted.sort();
        sorted.dedup();
        assert_eq!(sorted.len(), n);
        assert_eq!(*order.last().unwrap(), 0);
        // every vertex comes after all it was first reached through ... that is,
        // a vertex with an edge to an unyielded vertex is on the path still
        let pos = |v: usize| order.iter().position(|&x| x == v).unwrap();
        let mut pre = g.preorder_iter(true);
        while let Some((v, p)) = pre.next(&g) {
            if v != p {
                assert!(pos(v) < pos(p), "{} is yielded before its parent {}", v, p);
            }
        }
    }
}

#[test]
fn postorder_stops_at_what_cannot_be_reached() {
    let g = build(3, &[(0, 2), (2, 3), (4, 2)]);
    assert_eq!(drain_postorder(&g, true), vec![3, 2, 0]);
    assert_eq!(drain_postorder(&g, false), vec![0]);
}

#[test]
fn backward_postorder_follows_incoming_edges() {
    let g = build(2, &[(2, 0), (3, 2), (3, 0)]);
    assert_eq!(drain_postorder(&g, false), vec![3, 2, 0]);
}

#[test]
fn preorder_and_postorder_tolerate_cycles() {
    let g = build(3, &[(0, 2), (2, 3), (3, 4), (4, 2), (3, 3)]);
    assert_eq!(drain_postorder(&g, true), vec![4, 3, 2, 0]);
    let mut it = g.preorder_iter(true);
    let mut seen = Vec::new();
    while let Some((v, _)) = it.next(&g) {
        seen.push(v);
    }
    assert_eq!(seen, vec![0, 2, 3, 4]);
}

#[test]
fn cursors_can_start_from_the_terminator() {
    // 0 -> 2 -> 3 -> 1 and 2 -> 1
    let g = build(2, &[(0, 2), (2, 3), (3, 1), (2, 1)]);
    let mut pre = PreorderIterator::new(g.term(), g.size(), false);
    let mut seen = Vec::new();
    while let Some(step) = pre.next(&g) {
        seen.push(step);
    }
    assert_eq!(seen, vec![(1, 1), (2, 1), (0, 2), (3, 1)]);
    let mut post = PostorderIterator::new(g.term(), g.size(), false);
    let mut order = Vec::new();
    while let Some(v) = post.next(&g) {
        order.push(v);
    }
    assert_eq!(order, vec![0, 2, 3, 1]);
}
