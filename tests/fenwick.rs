use algo_lib::fenwick::{FenwickTree, Sum};

#[test]
fn test_empty() {
    let ft = FenwickTree::<Sum<i32>>::new(0);
    assert_eq!(ft.sum(0, 0), 0);
}

#[test]
fn test_single_update() {
    let mut ft = FenwickTree::<Sum<i32>>::new(10);
    assert_eq!(ft.sum(0, 10), 0);

    ft.add(0, 5, 10);
    assert_eq!(ft.sum(0, 5), 10 * 5);
    assert_eq!(ft.sum(0, 10), 10 * 5);
    assert_eq!(ft.sum(5, 10), 0);
}

#[test]
fn test_multiple_updates() {
    let mut ft = FenwickTree::<Sum<i32>>::new(10);

    ft.add(0, 3, 5);
    ft.add(2, 6, 4);
    ft.add(5, 10, 1);

    assert_eq!(ft.sum(0, 1), 5);
    assert_eq!(ft.sum(0, 2), 10);
    assert_eq!(ft.sum(0, 3), 19);
    assert_eq!(ft.sum(0, 5), 27);
    assert_eq!(ft.sum(0, 6), 32);
    assert_eq!(ft.sum(0, 10), 36);
    assert_eq!(ft.sum(2, 6), 22);
    assert_eq!(ft.sum(5, 8), 7);
}

#[test]
fn test_negative_values() {
    let mut ft = FenwickTree::<Sum<i32>>::new(5);

    ft.add(0, 5, 2);
    ft.add(1, 4, -3);

    assert_eq!(ft.sum(0, 1), 2);
    assert_eq!(ft.sum(0, 2), 2 + (-1));
    assert_eq!(ft.sum(0, 3), 2 + (-1) + (-1));
    assert_eq!(ft.sum(0, 4), 2 + (-1) + (-1) + (-1));
    assert_eq!(ft.sum(0, 5), 2 + (-1) + (-1) + (-1) + 2);
    assert_eq!(ft.sum(1, 4), -3);
}

#[test]
fn fenwick_empty_range_add_changes_nothing() {
    let mut ft = FenwickTree::<Sum<i64>>::new(6);
    ft.add(1, 4, 7);
    ft.add(3, 3, 100);
    ft.add(5, 2, 100);
    assert_eq!(ft.sum(0, 6), 21);
    assert_eq!(ft.sum(3, 4), 7);
    assert_eq!(ft.sum(4, 4), 0);
    assert_eq!(ft.sum(5, 2), 0);
}

#[test]
fn sum_splits_at_every_point() {
    let mut ft = FenwickTree::<Sum<i64>>::new(9);
    ft.add(0, 9, 3);
    ft.add(2, 7, -5);
    ft.add(4, 5, 11);
    for b in 0..=9usize {
        for e in b..=9usize {
            for m in b..=e {
                assert_eq!(ft.sum(b, e), ft.sum(b, m) + ft.sum(m, e));
            }
        }
    }
}

#[test]
fn wrapping_addition_forms_the_group() {
    let mut ft = FenwickTree::<Sum<i32>>::new(3);
    ft.add(0, 3, i32::MAX);
    assert_eq!(ft.sum(0, 1), i32::MAX);
    assert_eq!(ft.sum(0, 2), i32::MAX.wrapping_add(i32::MAX));
    ft.add(0, 3, i32::MIN);
    assert_eq!(ft.sum(1, 2), -1);
}

fn next_random(state: &mut u64) -> u64 {
    *state = state.wrapping_mul(6364136223846793005).wrapping_add(1442695040888963407);
    *state >> 33
}

#[test]
fn fenwick_matches_a_plain_array() {
    let mut seed: u64 = 12345;
    for size in 0..200usize {
        let mut ft = FenwickTree::<Sum<i64>>::new(size);
        let mut plain = vec![0i64; size];
        for _ in 0..20 {
            let a = (next_random(&mut seed) as usize) % (size + 1);
            let b = (next_random(&mut seed) as usize) % (size + 1);
            let v = (next_random(&mut seed) % 2001) as i64 - 1000;
            if next_random(&mut seed) % 2 == 0 {
                ft.add(a, b, v);
                for k in a..b.max(a) {
                    plain[k] += v;
                }
            } else {
                let expected: i64 = if a < b { plain[a..b].iter().sum() } else { 0 };
                assert_eq!(ft.sum(a, b), expected);
            }
        }
        let total: i64 = plain.iter().sum();
        assert_eq!(ft.sum(0, size), total);
    }
}
