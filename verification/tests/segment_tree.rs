use notebook::segment_tree::SegTree;

#[test]
fn test_seg_tree() {
    let mut stree = SegTree::new(0, 9, 0);
    assert_eq!(0, stree.query(0, 9));
    assert_eq!(0, stree.query(4, 4));
    assert_eq!(0, stree.query(9, 9));
    stree.update(4, 10);
    stree.update(9, 4);
    assert_eq!(14, stree.query(0, 9));
    assert_eq!(10, stree.query(4, 4));
    assert_eq!(4, stree.query(9, 9));
    stree.update(4, 15); // 0 0 0 0 15 0 0 0 0 4
    stree.update(5, 1); // 0 0 0 0 15 1 0 0 0 4
    assert_eq!(20, stree.query(1, 9));
    assert_eq!(16, stree.query(2, 8));
}

#[test]
fn seg_tree_initial_value() {
    let stree = SegTree::new(3, 10, 7);
    assert_eq!(stree.query(3, 10), 56);
    assert_eq!(stree.query(3, 3), 7);
    assert_eq!(stree.query(5, 6), 14);
    let single = SegTree::new(4, 4, -9);
    assert_eq!(single.query(4, 4), -9);
}

#[test]
fn seg_tree_every_range_matches_plain_sum() {
    let n = 13usize;
    let mut values = vec![0i64; n];
    let mut stree = SegTree::new(0, n - 1, 0);
    let mut x: i64 = 12345;
    for round in 0..40usize {
        x = (x * 1103515245 + 12345) % 2147483648;
        let at = round * 7 % n;
        let v = x % 2001 - 1000;
        values[at] = v;
        stree.update(at, v);
        for a in 0..n {
            for b in a..n {
                let expected: i64 = values[a..=b].iter().sum();
                assert_eq!(stree.query(a, b), expected, "range {}..={}", a, b);
            }
        }
    }
}

#[test]
fn seg_tree_range_inside_one_half() {
    let mut stree = SegTree::new(0, 9, 1);
    assert_eq!(stree.query(0, 0), 1);
    assert_eq!(stree.query(1, 2), 2);
    assert_eq!(stree.query(6, 7), 2);
    stree.update(0, 5);
    assert_eq!(stree.query(0, 0), 5);
    assert_eq!(stree.query(1, 3), 3);
}

#[test]
fn seg_tree_extreme_values() {
    let mut stree = SegTree::new(0, 2, 0);
    stree.update(0, i64::MAX);
    stree.update(1, i64::MIN);
    stree.update(2, 1);
    assert_eq!(stree.query(0, 0), i64::MAX);
    assert_eq!(stree.query(0, 1), -1);
    assert_eq!(stree.query(0, 2), 0);
    assert_eq!(stree.query(1, 2), i64::MIN + 1);
}
