use flow_recovery::util::disjointset::DisjointSet;

#[test]
fn new_sets_are_singletons() {
    let ds = DisjointSet::new(5);
    for v in 0..5 {
        assert!(ds.isroot(v));
        assert_eq!(ds.root(v), v);
    }
}

#[test]
fn link_unites_from_into_to() {
    let mut ds = DisjointSet::new(6);
    ds.link(0, 1);
    assert_eq!(ds.root(0), 1);
    assert_eq!(ds.root(1), 1);
    assert!(!ds.isroot(0));
    assert!(ds.isroot(1));
    ds.link(1, 2);
    assert_eq!(ds.root(0), 2);
    assert_eq!(ds.root(1), 2);
    assert_eq!(ds.root(2), 2);
    assert_eq!(ds.root(3), 3);
}

#[test]
fn roots_equal_iff_unioned() {
    let mut ds = DisjointSet::new(8);
    ds.link(0, 1);
    ds.link(2, 3);
    ds.link(1, 3);
    ds.link(5, 6);
    let groups: [&[usize]; 4] = [&[0, 1, 2, 3], &[4], &[5, 6], &[7]];
    for (gi, g) in groups.iter().enumerate() {
        for (hi, h) in groups.iter().enumerate() {
            for &a in g.iter() {
                for &b in h.iter() {
                    assert_eq!(ds.root(a) == ds.root(b), gi == hi);
                }
            }
        }
    }
}

#[test]
fn root_compress_keeps_partition() {
    let mut ds = DisjointSet::new(5);
    ds.link(0, 1);
    ds.link(1, 2);
    ds.link(2, 3);
    let before: Vec<usize> = (0..5).map(|v| ds.root(v)).collect();
    assert_eq!(ds.root_compress(0), 3);
    let after: Vec<usize> = (0..5).map(|v| ds.root(v)).collect();
    assert_eq!(before, after);
    assert_eq!(ds.root_compress(4), 4);
}

#[test]
fn link_within_one_set_changes_nothing() {
    let mut ds = DisjointSet::new(3);
    ds.link(0, 1);
    ds.link(1, 0);
    assert_eq!(ds.root(0), 1);
    assert_eq!(ds.root(1), 1);
    ds.link(2, 2);
    assert_eq!(ds.root(2), 2);
}
