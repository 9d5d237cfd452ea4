use algo_lib::disjoint_set::DisjointSet;

#[test]
fn fresh_elements_are_their_own_roots() {
    let mut ds = DisjointSet::new(4);
    for i in 0..4 {
        assert_eq!(ds.find(i), i);
    }
}

#[test]
fn union_merges_two_sets() {
    let mut ds = DisjointSet::new(6);
    let r = ds.union(0, 1);
    assert_eq!(r, 0);
    assert_eq!(ds.find(1), 0);
    ds.union(2, 3);
    let r2 = ds.union(3, 1);
    assert_eq!(ds.find(0), r2);
    assert_eq!(ds.find(2), r2);
    assert_eq!(ds.find(3), r2);
    assert_eq!(ds.find(4), 4);
    assert_eq!(ds.find(5), 5);
}

#[test]
fn union_within_one_set_keeps_it_whole() {
    let mut ds = DisjointSet::new(3);
    ds.union(0, 1);
    let r = ds.union(1, 0);
    assert_eq!(r, ds.find(0));
    assert_eq!(ds.find(1), r);
    assert_eq!(ds.find(2), 2);
}

#[test]
fn higher_rank_root_wins() {
    let mut ds = DisjointSet::new(4);
    ds.union(1, 2);
    let r = ds.union(0, 2);
    assert_eq!(r, 1);
    assert_eq!(ds.find(0), 1);
}
