use flow_recovery::util::graph::{Graph, GraphError, VertexEdge};

#[test]
fn default_graph_has_root_and_term() {
    let g: Graph<u8> = Graph::default();
    assert_eq!(g.size(), 2);
    assert_eq!(g.root(), 0);
    assert_eq!(g.term(), 1);
    assert!(g.vert(0).unwrap().is_pseudo());
    assert!(g.vert(1).unwrap().is_pseudo());
    assert!(g.vert(2).is_none());
}

#[test]
fn add_vert_returns_dense_indices() {
    let mut g: Graph<&str> = Graph::default();
    assert_eq!(g.add_vert("a"), 2);
    assert_eq!(g.add_vert("b"), 3);
    assert_eq!(g.size(), 4);
    assert_eq!(g.vert(2).unwrap().data(), Some(&"a"));
    assert!(!g.vert(3).unwrap().is_pseudo());
    assert!(g.vert(3).unwrap().edge_iter(true).is_empty());
}

#[test]
fn link_records_the_edge_at_both_ends() {
    let mut g: Graph<u8> = Graph::default();
    let a = g.add_vert(1);
    let b = g.add_vert(2);
    assert_eq!(g.link(a, b), Ok(()));
    assert_eq!(g.vert(a).unwrap().edge_iter(true), &[b]);
    assert_eq!(g.vert(b).unwrap().edge_iter(false), &[a]);
    assert!(g.vert(a).unwrap().edge_iter(false).is_empty());
    assert!(g.vert(b).unwrap().edge_iter(true).is_empty());
}

#[test]
fn link_reports_an_index_out_of_range() {
    let mut g: Graph<u8> = Graph::default();
    let a = g.add_vert(1);
    assert_eq!(g.link(a, 7), Err(GraphError::OutOfRange(7)));
    assert_eq!(g.link(9, a), Err(GraphError::OutOfRange(9)));
    assert_eq!(g.link(9, 8), Err(GraphError::OutOfRange(9)));
    assert!(g.vert(a).unwrap().edge_iter(true).is_empty());
    assert!(g.vert(a).unwrap().edge_iter(false).is_empty());
}

#[test]
fn edges_keep_order_and_repeats_past_the_inline_two() {
    let mut e = VertexEdge::default();
    assert!(e.targets().is_empty());
    e.add_link(5);
    assert_eq!(e.targets(), &[5]);
    e.add_link(3);
    assert_eq!(e.targets(), &[5, 3]);
    assert!(matches!(e, VertexEdge::CommonEdge(_, 2)));
    e.add_link(5);
    assert_eq!(e.targets(), &[5, 3, 5]);
    assert!(matches!(e, VertexEdge::MultiwayEdge(_)));
    e.add_link(9);
    assert_eq!(e.targets(), &[5, 3, 5, 9]);
}

#[test]
fn vert_mut_and_data_mut_change_the_payload() {
    let mut g: Graph<u8> = Graph::default();
    let a = g.add_vert(1);
    *g.vert_mut(a).unwrap().data_mut().unwrap() = 9;
    assert_eq!(g.vert(a).unwrap().data(), Some(&9));
    assert!(g.vert_mut(0).unwrap().data_mut().is_none());
    assert!(g.vert_mut(5).is_none());
}

#[test]
fn vert_iter_walks_all_vertices() {
    let mut g: Graph<u8> = Graph::default();
    g.add_vert(1);
    g.add_vert(2);
    let pseudo: Vec<bool> = g.vert_iter().iter().map(|v| v.is_pseudo()).collect();
    assert_eq!(pseudo, vec![true, true, false, false]);
}

#[test]
fn preorder_yields_each_reachable_vertex_once_with_its_parent() {
    let mut g: Graph<u8> = Graph::default();
    for i in 0..5 {
        g.add_vert(i);
    }
    // 0 -> 2 -> {3, 4}, 3 -> 5, 4 -> 5, 5 -> 2, 6 is unreachable
    for &(a, b) in &[(0, 2), (2, 3), (2, 4), (3, 5), (4, 5), (5, 2), (6, 2)] {
        g.link(a, b).unwrap();
    }
    let mut it = g.preorder_iter(true);
    let mut seen = Vec::new();
    while let Some((v, p)) = it.next(&g) {
        seen.push((v, p));
    }
    assert_eq!(seen, vec![(0, 0), (2, 0), (4, 2), (5, 4), (3, 2)]);
    assert_eq!(it.next(&g), None);
}

#[test]
fn check_forward_accepts_graphs_built_by_link() {
    let mut g: Graph<u8> = Graph::default();
    assert!(g.check_forward());
    let a = g.add_vert(1);
    let b = g.add_vert(2);
    g.link(a, b).unwrap();
    g.link(b, 1).unwrap();
    assert!(g.check_forward());
    g.vert_mut(a).unwrap().link_out(40);
    assert!(!g.check_forward());
}

#[test]
fn link_of_a_vertex_to_itself_shows_at_both_ends() {
    let mut g: Graph<u8> = Graph::default();
    let a = g.add_vert(1);
    assert_eq!(g.link(a, a), Ok(()));
    assert_eq!(g.vert(a).unwrap().edge_iter(true), &[a]);
    assert_eq!(g.vert(a).unwrap().edge_iter(false), &[a]);
}

#[test]
fn vertex_links_append_in_order() {
    let mut g: Graph<u8> = Graph::default();
    let a = g.add_vert(1);
    let v = g.vert_mut(a).unwrap();
    v.link_out(0);
    v.link_out(1);
    v.link_out(0);
    v.link_in(1);
    assert_eq!(v.edge_iter(true), &[0, 1, 0]);
    assert_eq!(v.edge_iter(false), &[1]);
    assert_eq!(v.data_mut(), Some(&mut 1));
}
