use notebook::disjoint_set::DSet;

#[test]
fn test_disjoint_set() {
    let mut ds = DSet::new(10);
    ds.merge(0, 2);
    ds.merge(6, 8);
    ds.merge(2, 4);
    ds.merge(4, 6);
    assert_eq!(ds.root(0), ds.root(8));
    assert_eq!(ds.root(0), ds.root(6));
    assert_eq!(ds.root(0), ds.root(4));
    assert_eq!(ds.root(0), ds.root(2));
    assert_eq!(1, ds.root(1));
    assert_eq!(3, ds.root(3));
    assert_eq!(5, ds.root(5));
    assert_eq!(7, ds.root(7));
    assert_eq!(9, ds.root(9));
    let root0 = ds.root(0);
    assert_eq!(ds.r[root0], 2);
}

#[test]
fn new_sets_are_singletons() {
    let mut ds = DSet::new(5);
    assert_eq!(ds.p, vec![0, 1, 2, 3, 4]);
    assert_eq!(ds.r, vec![0, 0, 0, 0, 0]);
    for i in 0..5 {
        assert_eq!(ds.root(i), i);
    }
    let empty = DSet::new(0);
    assert!(empty.p.is_empty());
    assert!(empty.r.is_empty());
}

#[test]
fn merge_reports_whether_sets_were_apart() {
    let mut ds = DSet::new(4);
    assert!(ds.merge(0, 1));
    assert!(!ds.merge(0, 1));
    assert!(!ds.merge(1, 0));
    assert!(!ds.merge(2, 2));
    assert!(ds.merge(2, 3));
    assert!(ds.merge(1, 3));
    assert!(!ds.merge(0, 2));
}

#[test]
fn merge_links_lower_rank_under_higher() {
    let mut ds = DSet::new(6);
    // equal ranks: the second becomes the representative and gains a rank
    assert!(ds.merge(0, 1));
    assert_eq!(ds.root(0), 1);
    assert_eq!(ds.r, vec![0, 1, 0, 0, 0, 0]);
    // lower rank goes under higher, either way round, ranks unchanged
    assert!(ds.merge(1, 2));
    assert_eq!(ds.root(2), 1);
    assert!(ds.merge(3, 0));
    assert_eq!(ds.root(3), 1);
    assert_eq!(ds.r, vec![0, 1, 0, 0, 0, 0]);
    // elements of other sets keep their representative
    assert_eq!(ds.root(4), 4);
    assert_eq!(ds.root(5), 5);
}

#[test]
fn root_shortens_chains_and_keeps_sets() {
    let mut ds = DSet::new(8);
    ds.merge(0, 1);
    ds.merge(2, 3);
    ds.merge(1, 3);
    ds.merge(4, 5);
    ds.merge(6, 7);
    ds.merge(5, 7);
    ds.merge(3, 7);
    let top = ds.root(0);
    assert_eq!(top, 7);
    assert_eq!(ds.p[0], top);
    for i in 0..8 {
        assert_eq!(ds.root(i), top);
        assert_eq!(ds.p[i], top);
    }
    assert_eq!(ds.r[top], 3);
}
