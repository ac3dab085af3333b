use data_structures::quick_union::QuickUnion;

#[test]
fn test_quick_union() {
    let mut quick_union = QuickUnion::new(10);
    assert_eq!(quick_union.ids, vec![0, 1, 2, 3, 4, 5, 6, 7, 8, 9]);

    let root_2 = quick_union.root(2);
    assert_eq!(root_2, 2);

    assert!(!quick_union.connected(1, 2));

    // Connect 2 --- 1
    quick_union.union(2, 1);

    let root_2 = quick_union.root(2);
    assert_eq!(root_2, 1);

    assert!(quick_union.connected(1, 2));
    assert_eq!(quick_union.ids, vec![0, 1, 1, 3, 4, 5, 6, 7, 8, 9]);

    // Connect 1 --- 0
    quick_union.union(1, 0);

    let root_1 = quick_union.root(1);
    assert_eq!(root_1, 0);

    let root_2 = quick_union.root(2);
    assert_eq!(root_2, 0);

    assert!(quick_union.connected(1, 2));
    assert!(quick_union.connected(0, 2));
    assert!(quick_union.connected(1, 0));

    // 1 -> 0
    // 2 -> 1 -> 0
    assert_eq!(quick_union.ids, vec![0, 0, 1, 3, 4, 5, 6, 7, 8, 9]);
}

#[test]
fn quick_union_new_of_nothing_is_empty() {
    let uf = QuickUnion::new(0);
    assert!(uf.ids.is_empty());
}

#[test]
fn quick_union_hangs_first_root_under_second() {
    let mut uf = QuickUnion::new(5);
    uf.union(0, 1);
    uf.union(2, 3);
    assert_eq!(uf.ids, vec![1, 1, 3, 3, 4]);
    // The roots are linked, not the elements named.
    uf.union(0, 2);
    assert_eq!(uf.ids, vec![1, 3, 3, 3, 4]);
    assert_eq!(uf.root(0), 3);
    assert!(uf.connected(0, 2));
    assert!(!uf.connected(0, 4));
}

#[test]
fn quick_union_of_connected_elements_keeps_the_links() {
    let mut uf = QuickUnion::new(4);
    uf.union(0, 1);
    uf.union(1, 2);
    let ids = uf.ids.clone();
    uf.union(0, 2);
    uf.union(2, 0);
    uf.union(3, 3);
    assert_eq!(uf.ids, ids);
}

#[test]
fn quick_union_root_of_root_is_root() {
    let mut uf = QuickUnion::new(6);
    uf.union(0, 1);
    uf.union(1, 2);
    uf.union(3, 4);
    uf.union(4, 0);
    for i in 0..6 {
        let r = uf.root(i);
        assert_eq!(uf.root(r), r);
        assert_eq!(uf.ids[r as usize], r);
    }
}

#[test]
fn quick_union_keeps_the_length() {
    let mut uf = QuickUnion::new(4);
    uf.union(0, 1);
    uf.union(2, 0);
    uf.union(1, 1);
    assert_eq!(uf.ids.len(), 4);
}
