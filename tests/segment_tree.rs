use algo_lib::segment_tree::SegmentTree;

#[test]
fn test_update_and_query_whole_range() {
    let size = 5;
    let mut segtree = SegmentTree::<usize>::new(size);

    assert_eq!(segtree.query(0, size), 0);

    segtree.update(1, 4, 3);
    assert_eq!(segtree.query(0, size), 3);

    assert_eq!(segtree.query(0, 1), 0);
    assert_eq!(segtree.query(1, 4), 3);
    assert_eq!(segtree.query(4, 5), 0);
}

#[test]
fn test_multiple_updates_and_queries() {
    let size = 5;
    let mut segtree = SegmentTree::<usize>::new(size);

    segtree.update(0, 3, 2);
    segtree.update(2, 5, 1);

    assert_eq!(segtree.query(0, size), 3);
    assert_eq!(segtree.query(0, 2), 2);
    assert_eq!(segtree.query(2, 3), 3);
    assert_eq!(segtree.query(3, 5), 1);
}

#[test]
fn test_single_element_queries() {
    let size = 4;
    let mut segtree = SegmentTree::<usize>::new(size);

    segtree.update(0, 4, 5);
    segtree.update(1, 3, 2);
    segtree.update(2, 3, 3);

    assert_eq!(segtree.query(0, 1), 5);
    assert_eq!(segtree.query(1, 2), 7);
    assert_eq!(segtree.query(2, 3), 10);
    assert_eq!(segtree.query(3, 4), 5);
}

#[test]
fn pending_update_of_untouched_sibling_is_kept() {
    let mut segtree = SegmentTree::<usize>::new(2);
    segtree.update(0, 1, 10);
    segtree.update(0, 2, 5);
    segtree.update(1, 2, 1);
    assert_eq!(segtree.query(0, 2), 15);
    assert_eq!(segtree.query(0, 1), 15);
    assert_eq!(segtree.query(1, 2), 6);
}

#[test]
fn empty_tree_and_empty_ranges() {
    let mut empty = SegmentTree::<usize>::new(0);
    empty.update(0, 0, 4);
    assert_eq!(empty.query(0, 0), 0);

    let mut segtree = SegmentTree::<usize>::new(6);
    segtree.update(2, 5, 3);
    segtree.update(4, 4, 100);
    segtree.update(5, 1, 100);
    assert_eq!(segtree.query(0, 6), 3);
    assert_eq!(segtree.query(3, 3), 0);
    assert_eq!(segtree.query(4, 2), 0);
}

#[test]
fn updates_saturate() {
    let mut segtree = SegmentTree::<usize>::new(3);
    segtree.update(0, 3, usize::MAX - 1);
    segtree.update(1, 2, 5);
    assert_eq!(segtree.query(1, 2), usize::MAX);
    assert_eq!(segtree.query(0, 1), usize::MAX - 1);
}

#[test]
fn query_splits_at_every_point() {
    let mut segtree = SegmentTree::<usize>::new(7);
    segtree.update(0, 7, 1);
    segtree.update(2, 6, 4);
    segtree.update(5, 6, 2);
    for b in 0..=7usize {
        for e in b..=7usize {
            for m in b..=e {
                let whole = segtree.query(b, e);
                let left = segtree.query(b, m);
                let right = segtree.query(m, e);
                assert_eq!(whole, left.max(right));
            }
        }
    }
}

fn next_seed(state: &mut u64) -> u64 {
    *state = state.wrapping_mul(6364136223846793005).wrapping_add(1442695040888963407);
    *state >> 33
}

#[test]
fn segment_tree_matches_a_plain_array() {
    let mut seed: u64 = 987654321;
    for size in 0..200usize {
        let mut segtree = SegmentTree::<usize>::new(size);
        let mut plain = vec![0usize; size];
        for _ in 0..20 {
            let a = (next_seed(&mut seed) as usize) % (size + 1);
            let b = (next_seed(&mut seed) as usize) % (size + 1);
            let v = (next_seed(&mut seed) % 50) as usize;
            if next_seed(&mut seed) % 2 == 0 {
                segtree.update(a, b, v);
                for k in a..b.max(a) {
                    plain[k] += v;
                }
            } else {
                let expected = if a < b { *plain[a..b].iter().max().unwrap() } else { 0 };
                assert_eq!(segtree.query(a, b), expected);
            }
        }
        let expected = plain.iter().copied().max().unwrap_or(0);
        assert_eq!(segtree.query(0, size), expected);
    }
}
