use flow_recovery::analysis::structurizer::{
    copy_indices, init_analysis_graph, list_has, only, same_list, semantic_preserving_structurize,
    ControlNode, SPSState, Structurizer,
};
use flow_recovery::ir::pdir::{BasicBlock, PDRoutine, PDStatement};
use flow_recovery::util::graph::Graph;

fn block() -> BasicBlock {
    BasicBlock { statements: vec![PDStatement::Assignment], transfer_cond: None }
}

fn routine(n_blocks: usize, edges: &[(usize, usize)]) -> PDRoutine {
    let mut g: Graph<BasicBlock> = Graph::default();
    for _ in 0..n_blocks {
        g.add_vert(block());
    }
    for &(a, b) in edges {
        g.link(a, b).unwrap();
    }
    PDRoutine { blocks: g }
}

/// The leaves under `id`, in the order the regions name them.
fn leaves(state: &SPSState, id: usize, out: &mut Vec<usize>) {
    match state.region(id).unwrap() {
        ControlNode::Leaf(b) => out.push(*b),
        ControlNode::Goto | ControlNode::Tail => {}
        ControlNode::Sequence(parts) | ControlNode::CompoundCond(parts) => {
            for &p in parts {
                leaves(state, p, out);
            }
        }
        ControlNode::If(a, b) | ControlNode::While(a, b) | ControlNode::DoWhile(a, b) => {
            leaves(state, *a, out);
            leaves(state, *b, out);
        }
        ControlNode::IfElse(a, b, c) | ControlNode::For(a, b, c) => {
            leaves(state, *a, out);
            leaves(state, *b, out);
            leaves(state, *c, out);
        }
        ControlNode::Switch(h, cases) => {
            leaves(state, *h, out);
            for &p in cases {
                leaves(state, p, out);
            }
        }
        ControlNode::SelfLoop(b) => leaves(state, *b, out),
    }
}

fn structured(r: &PDRoutine) -> (SPSState, usize) {
    let mut state = SPSState::new(&r.blocks);
    state.structurize();
    let root = state.root_region().expect("one region is left");
    (state, root)
}

#[test]
fn straight_line_of_two_blocks_is_a_sequence() {
    let r = routine(2, &[(0, 2), (2, 3), (3, 1)]);
    assert_eq!(semantic_preserving_structurize(&r), Ok(ControlNode::Sequence(vec![2, 3])));
}

#[test]
fn diamond_is_an_if_else() {
    // head 2, arms 3 and 4, which meet at the terminator
    let r = routine(3, &[(0, 2), (2, 3), (2, 4), (3, 1), (4, 1)]);
    assert_eq!(semantic_preserving_structurize(&r), Ok(ControlNode::IfElse(2, 3, 4)));
}

#[test]
fn diamond_with_a_join_block_is_an_if_else_followed_by_the_join() {
    let r = routine(4, &[(0, 2), (2, 3), (2, 4), (3, 5), (4, 5), (5, 1)]);
    let (state, root) = structured(&r);
    assert_eq!(state.region(root), Some(&ControlNode::Sequence(vec![6, 5])));
    assert_eq!(state.region(6), Some(&ControlNode::IfElse(2, 3, 4)));
    assert_eq!(semantic_preserving_structurize(&r), Ok(ControlNode::Sequence(vec![6, 5])));
}

#[test]
fn block_with_an_edge_to_itself_is_a_self_loop() {
    let r = routine(1, &[(0, 2), (2, 2)]);
    assert_eq!(semantic_preserving_structurize(&r), Ok(ControlNode::SelfLoop(2)));
}

#[test]
fn loop_with_the_test_in_the_header_is_a_while() {
    // header 2 tests, body 3 comes back, the exit leads to the terminator
    let r = routine(2, &[(0, 2), (2, 3), (3, 2), (2, 1)]);
    assert_eq!(semantic_preserving_structurize(&r), Ok(ControlNode::While(2, 3)));
}

#[test]
fn loop_with_the_test_after_the_body_is_a_do_while() {
    let r = routine(2, &[(0, 2), (2, 3), (3, 2), (3, 1)]);
    assert_eq!(semantic_preserving_structurize(&r), Ok(ControlNode::DoWhile(2, 3)));
}

#[test]
fn branch_that_skips_one_arm_is_an_if() {
    let r = routine(3, &[(0, 2), (2, 3), (2, 4), (3, 4), (4, 1)]);
    let (state, root) = structured(&r);
    assert_eq!(state.region(root), Some(&ControlNode::Sequence(vec![5, 4])));
    assert_eq!(state.region(5), Some(&ControlNode::If(2, 3)));
}

#[test]
fn branch_into_three_arms_is_a_switch() {
    let r = routine(5, &[(0, 2), (2, 3), (2, 4), (2, 5), (3, 6), (4, 6), (5, 6), (6, 1)]);
    let (state, root) = structured(&r);
    assert_eq!(state.region(7), Some(&ControlNode::Switch(2, vec![3, 4, 5])));
    assert_eq!(state.region(root), Some(&ControlNode::Sequence(vec![7, 6])));
}

#[test]
fn two_blocks_that_repeat_without_exit_are_a_loop_around_a_sequence() {
    let r = routine(2, &[(0, 2), (2, 3), (3, 2)]);
    let (state, root) = structured(&r);
    assert_eq!(state.region(root), Some(&ControlNode::SelfLoop(4)));
    assert_eq!(state.region(4), Some(&ControlNode::Sequence(vec![2, 3])));
}

#[test]
fn irreducible_loop_with_two_entries_ends_with_jumps() {
    // 2 branches into 3 and 4, which lead to each other; 4 leaves
    let r = routine(3, &[(0, 2), (2, 3), (2, 4), (3, 4), (4, 3), (4, 1)]);
    let (state, root) = structured(&r);
    let mut found = Vec::new();
    leaves(&state, root, &mut found);
    found.sort();
    assert_eq!(found, vec![2, 3, 4]);
    let mut jumps = 0;
    for id in 0..state.size() {
        if matches!(state.region(id), Some(ControlNode::Goto) | Some(ControlNode::Tail)) {
            jumps += 1;
        }
    }
    assert!(jumps >= 2);
    assert!(semantic_preserving_structurize(&r).is_ok());
}

#[test]
fn every_reachable_block_is_placed_once() {
    let mut state: u64 = 0x9E3779B97F4A7C15;
    let mut next = |m: usize| -> usize {
        state ^= state << 13;
        state ^= state >> 7;
        state ^= state << 17;
        (state % (m as u64)) as usize
    };
    for _ in 0..200 {
        let n = 1 + next(8);
        let mut edges = vec![(0usize, 2usize)];
        for _ in 0..next(3 * n) {
            edges.push((2 + next(n), if next(5) == 0 { 1 } else { 2 + next(n) }));
        }
        let r = routine(n, &edges);
        let (st, root) = structured(&r);
        let mut found = Vec::new();
        leaves(&st, root, &mut found);
        found.sort();
        let mut expected = r.blocks.postorder(true);
        expected.retain(|&v| v >= 2);
        expected.sort();
        assert_eq!(found, expected);
    }
}

#[test]
fn structuring_a_structured_state_changes_nothing() {
    let r = routine(4, &[(0, 2), (2, 3), (2, 4), (3, 5), (4, 5), (5, 1)]);
    let (mut state, root) = structured(&r);
    let size = state.size();
    let node = state.region(root).cloned();
    state.structurize();
    assert_eq!(state.size(), size);
    assert_eq!(state.root_region(), Some(root));
    assert_eq!(state.region(root).cloned(), node);
}

#[test]
fn single_block_is_its_own_structure() {
    let r = routine(1, &[(0, 2), (2, 1)]);
    assert_eq!(semantic_preserving_structurize(&r), Ok(ControlNode::Leaf(2)));
    let mut state = SPSState::new(&r.blocks);
    state.structurize();
    assert_eq!(state.size(), 3);
}

#[test]
fn routine_without_reachable_block_is_refused() {
    let r = routine(0, &[]);
    assert_eq!(
        semantic_preserving_structurize(&r),
        Err(String::from("no basic block can be reached"))
    );
    let r = routine(2, &[(2, 3), (3, 1)]);
    assert_eq!(
        semantic_preserving_structurize(&r),
        Err(String::from("no basic block can be reached"))
    );
}

#[test]
fn malformed_flow_graph_is_refused() {
    let mut r = routine(2, &[(0, 2), (2, 3)]);
    r.blocks.vert_mut(3).unwrap().link_out(17);
    assert!(!r.blocks.check_forward());
    assert_eq!(semantic_preserving_structurize(&r), Err(String::from("malformed flow graph")));
}

#[test]
fn unreachable_blocks_stay_out_of_the_structure() {
    let r = routine(3, &[(0, 2), (2, 3), (3, 1), (4, 3)]);
    assert_eq!(semantic_preserving_structurize(&r), Ok(ControlNode::Sequence(vec![2, 3])));
}

#[test]
fn analysis_graph_copies_vertices_and_edges() {
    let r = routine(3, &[(0, 2), (2, 3), (2, 4), (3, 4), (4, 1)]);
    let copy = init_analysis_graph(&r.blocks);
    assert_eq!(copy.size(), 5);
    assert!(copy.vert(0).unwrap().is_pseudo());
    assert!(copy.vert(1).unwrap().is_pseudo());
    for v in 2..5 {
        assert_eq!(copy.vert(v).unwrap().data(), Some(&ControlNode::Leaf(v)));
    }
    for v in 0..5 {
        assert_eq!(
            copy.vert(v).unwrap().edge_iter(true),
            r.blocks.vert(v).unwrap().edge_iter(true)
        );
    }
    assert_eq!(copy.vert(4).unwrap().edge_iter(false), &[2, 3]);
}

#[test]
fn loop_with_initialisation_and_step_is_a_for() {
    // 2 initialises, 3 tests, 4 is the body proper, 5 the step
    let r = routine(4, &[(0, 2), (2, 3), (3, 4), (4, 5), (5, 3), (3, 1)]);
    let (state, root) = structured(&r);
    assert_eq!(state.region(6), Some(&ControlNode::Sequence(vec![4, 5])));
    assert_eq!(state.region(root), Some(&ControlNode::For(2, 3, 6)));
}

#[test]
fn loop_after_a_block_without_step_is_a_while_in_a_sequence() {
    let r = routine(3, &[(0, 2), (2, 3), (3, 4), (4, 3), (3, 1)]);
    let (state, root) = structured(&r);
    assert_eq!(state.region(5), Some(&ControlNode::While(3, 4)));
    assert_eq!(state.region(root), Some(&ControlNode::Sequence(vec![2, 5])));
}

#[test]
fn state_reports_which_vertices_are_regions_of_their_own() {
    let r = routine(3, &[(0, 2), (2, 3), (3, 1), (4, 3)]);
    let mut state = SPSState::new(&r.blocks);
    assert_eq!(state.size(), 5);
    assert!(state.is_live(0) && state.is_live(1));
    assert!(state.is_live(2) && state.is_live(3));
    assert!(!state.is_live(4), "a block that cannot be reached is no region");
    assert!(!state.is_live(9));
    assert!(state.is_region_at(2));
    assert!(!state.is_region_at(0));
    assert_eq!(state.root_region(), None);
    assert_eq!(state.live_targets(2, true), vec![3]);
    assert_eq!(state.live_targets(3, false), vec![2]);
    assert_eq!(state.live_targets(3, true), vec![1]);
    assert!(!state.has_self_edge(2));
    state.structurize();
    assert_eq!(state.size(), 6);
    assert!(!state.is_live(2) && !state.is_live(3));
    assert!(state.is_live(5));
    assert_eq!(state.root_region(), Some(5));
    assert_eq!(state.region(5), Some(&ControlNode::Sequence(vec![2, 3])));
    assert_eq!(state.region(0), None);
    assert_eq!(state.region(17), None);
}

#[test]
fn live_targets_name_each_live_neighbour_once() {
    let r = routine(3, &[(0, 2), (2, 3), (2, 4), (2, 3), (2, 2), (3, 1), (4, 1)]);
    let state = SPSState::new(&r.blocks);
    assert_eq!(state.live_targets(2, true), vec![3, 4, 2]);
    assert!(state.has_self_edge(2));
    assert_eq!(state.live_targets(1, false), vec![3, 4]);
}

#[test]
fn find_region_names_the_shape_at_a_region() {
    let r = routine(3, &[(0, 2), (2, 3), (2, 4), (3, 1), (4, 1)]);
    let state = SPSState::new(&r.blocks);
    let idom = r.blocks.compute_dom_tree(true);
    let found = state.find_region(&idom, 2).expect("a branch begins at 2");
    assert_eq!(found.node, ControlNode::IfElse(2, 3, 4));
    assert_eq!(found.members, vec![2, 3, 4]);
    assert!(!found.cyclic);
    assert!(state.find_region(&idom, 3).is_none());
}

#[test]
fn loops_are_recognised_before_branches() {
    // both ways out of 2 come back to it: the first is the body of a loop,
    // the second follows the loop and leads back into it
    let r = routine(3, &[(0, 2), (2, 3), (2, 4), (3, 2), (4, 2)]);
    let (state, root) = structured(&r);
    assert_eq!(state.region(5), Some(&ControlNode::While(2, 3)));
    assert_eq!(state.region(6), Some(&ControlNode::Sequence(vec![5, 4])));
    assert_eq!(state.region(root), Some(&ControlNode::SelfLoop(6)));
}

#[test]
fn node_duplicate_is_equal_to_the_node() {
    let nodes = vec![
        ControlNode::Leaf(4),
        ControlNode::Sequence(vec![2, 3, 9]),
        ControlNode::If(2, 3),
        ControlNode::IfElse(2, 3, 4),
        ControlNode::CompoundCond(vec![5, 6]),
        ControlNode::Switch(2, vec![3, 4, 5]),
        ControlNode::SelfLoop(7),
        ControlNode::While(2, 3),
        ControlNode::DoWhile(2, 3),
        ControlNode::For(2, 3, 4),
        ControlNode::Goto,
        ControlNode::Tail,
    ];
    for n in &nodes {
        assert_eq!(&n.duplicate(), n);
    }
}

#[test]
fn list_helpers_compare_by_content() {
    let a = vec![4usize, 7, 9];
    assert!(list_has(&a, 7));
    assert!(!list_has(&a, 5));
    assert!(!list_has(&Vec::new(), 5));
    assert!(only(&vec![3], 3));
    assert!(!only(&vec![3], 4));
    assert!(!only(&vec![3, 3], 3));
    assert!(!only(&Vec::new(), 3));
    assert!(same_list(&a, &vec![4, 7, 9]));
    assert!(!same_list(&a, &vec![4, 9, 7]));
    assert!(!same_list(&a, &vec![4, 7]));
    assert_eq!(copy_indices(&a), a);
}

#[test]
fn two_tests_with_a_common_way_out_decide_one_branch() {
    // 2 and 3 both lead to 5 if they fail; 4 runs if both hold; all meet in 6
    let r = routine(5, &[(0, 2), (2, 3), (2, 5), (3, 4), (3, 5), (4, 6), (5, 6), (6, 1)]);
    let (state, root) = structured(&r);
    assert_eq!(state.region(7), Some(&ControlNode::CompoundCond(vec![2, 3])));
    // the arms come in the order of the edges out of the combined head: those
    // of the first test, then those of the second
    assert_eq!(state.region(8), Some(&ControlNode::IfElse(7, 5, 4)));
    assert_eq!(state.region(root), Some(&ControlNode::Sequence(vec![8, 6])));
}

#[test]
fn second_test_without_an_else_is_a_nested_if() {
    let r = routine(4, &[(0, 2), (2, 3), (2, 5), (3, 4), (3, 5), (4, 5), (5, 1)]);
    let (state, root) = structured(&r);
    assert_eq!(state.region(6), Some(&ControlNode::If(3, 4)));
    assert_eq!(state.region(7), Some(&ControlNode::If(2, 6)));
    assert_eq!(state.region(root), Some(&ControlNode::Sequence(vec![7, 5])));
}
