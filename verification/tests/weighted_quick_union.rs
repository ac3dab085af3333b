use data_structures::weighted_quick_union::WeightedQuickUnion;

#[test]
fn test_weighted_quick_union() {
    let mut quick_union = WeightedQuickUnion::new(10);
    assert_eq!(quick_union.ids, vec![0, 1, 2, 3, 4, 5, 6, 7, 8, 9]);
    assert_eq!(quick_union.sizes, vec![1; 10]);

    let root_2 = quick_union.root(2);
    assert_eq!(root_2, 2);

    assert!(!quick_union.connected(1, 2));

    // Connect 2 --- 1: of two sets of equal size the first goes under the second.
    quick_union.union(2, 1);

    let root_1 = quick_union.root(1);
    assert_eq!(root_1, 1);

    let root_2 = quick_union.root(2);
    assert_eq!(root_2, 1);

    assert!(quick_union.connected(1, 2));
    assert_eq!(quick_union.ids, vec![0, 1, 1, 3, 4, 5, 6, 7, 8, 9]);
    assert_eq!(quick_union.sizes, vec![1, 2, 1, 1, 1, 1, 1, 1, 1, 1]);

    // Connect 1 --- 0
    quick_union.union(1, 0);

    let root_0 = quick_union.root(0);
    assert_eq!(root_0, 1);

    let root_2 = quick_union.root(2);
    assert_eq!(root_2, 1);

    assert!(quick_union.connected(1, 2));
    assert!(quick_union.connected(0, 2));
    assert!(quick_union.connected(1, 0));

    // (0, 2) -> 1
    assert_eq!(quick_union.ids, vec![1, 1, 1, 3, 4, 5, 6, 7, 8, 9]);
    assert_eq!(quick_union.sizes, vec![1, 3, 1, 1, 1, 1, 1, 1, 1, 1]);
}

/// The sum of the sizes recorded at the roots.
fn root_size_sum(uf: &WeightedQuickUnion) -> u32 {
    let mut sum = 0;
    for i in 0..uf.ids.len() {
        if uf.ids[i] as usize == i {
            sum += uf.sizes[i];
        }
    }
    sum
}

/// The number of links from `id` up to its root.
fn depth(uf: &WeightedQuickUnion, id: u32) -> u32 {
    let mut cur = id;
    let mut links = 0;
    while uf.ids[cur as usize] != cur {
        cur = uf.ids[cur as usize];
        links += 1;
    }
    links
}

/// The unions that the longer tests apply, in order.
fn some_unions() -> Vec<(u32, u32)> {
    vec![(0, 1), (2, 3), (1, 3), (4, 5), (6, 7), (5, 7), (3, 7), (8, 9), (9, 0), (10, 11), (11, 4)]
}

#[test]
fn new_makes_singletons() {
    let uf = WeightedQuickUnion::new(4);
    assert_eq!(uf.ids, vec![0, 1, 2, 3]);
    assert_eq!(uf.sizes, vec![1, 1, 1, 1]);
    for i in 0..4 {
        assert_eq!(uf.root(i), i);
    }
}

#[test]
fn new_of_nothing_is_empty() {
    let uf = WeightedQuickUnion::new(0);
    assert!(uf.ids.is_empty());
    assert!(uf.sizes.is_empty());
}

#[test]
fn never_unioned_elements_are_apart() {
    let mut uf = WeightedQuickUnion::new(6);
    uf.union(0, 1);
    uf.union(2, 3);
    for p in 0..6 {
        for q in 0..6 {
            let first_pair = p < 2 && q < 2;
            let second_pair = (2..4).contains(&p) && (2..4).contains(&q);
            let together = p == q || first_pair || second_pair;
            assert_eq!(uf.connected(p, q), together);
        }
    }
}

#[test]
fn every_element_is_connected_to_itself() {
    let uf = WeightedQuickUnion::new(5);
    for p in 0..5 {
        assert!(uf.connected(p, p));
    }
}

#[test]
fn equal_sizes_hang_the_first_root_under_the_second() {
    let mut uf = WeightedQuickUnion::new(4);
    uf.union(3, 0);
    assert_eq!(uf.ids, vec![0, 1, 2, 0]);
    assert_eq!(uf.sizes, vec![2, 1, 1, 1]);
    uf.union(1, 2);
    assert_eq!(uf.ids, vec![0, 2, 2, 0]);
    assert_eq!(uf.sizes, vec![2, 1, 2, 1]);
    uf.union(2, 0);
    assert_eq!(uf.ids, vec![0, 2, 0, 0]);
    assert_eq!(uf.sizes, vec![4, 1, 2, 1]);
}

#[test]
fn smaller_set_hangs_under_larger_whichever_comes_first() {
    let mut uf = WeightedQuickUnion::new(5);
    uf.union(0, 1);
    uf.union(2, 1);
    assert_eq!(uf.ids, vec![1, 1, 1, 3, 4]);
    assert_eq!(uf.sizes[1], 3);
    // The set of 3 is smaller and named first: its root goes under root 1.
    uf.union(3, 0);
    assert_eq!(uf.ids, vec![1, 1, 1, 1, 4]);
    assert_eq!(uf.sizes[1], 4);
    // The set of 4 is smaller and named second: its root goes under root 1.
    uf.union(2, 4);
    assert_eq!(uf.ids, vec![1, 1, 1, 1, 1]);
    assert_eq!(uf.sizes[1], 5);
}

#[test]
fn union_of_connected_elements_changes_nothing() {
    let mut uf = WeightedQuickUnion::new(6);
    uf.union(0, 1);
    uf.union(1, 2);
    uf.union(4, 5);
    let ids = uf.ids.clone();
    let sizes = uf.sizes.clone();
    uf.union(2, 0);
    uf.union(0, 2);
    uf.union(5, 4);
    uf.union(3, 3);
    assert_eq!(uf.ids, ids);
    assert_eq!(uf.sizes, sizes);
}

#[test]
fn root_of_root_is_root() {
    let mut uf = WeightedQuickUnion::new(12);
    for (p, q) in some_unions() {
        uf.union(p, q);
        for i in 0..12 {
            let r = uf.root(i);
            assert_eq!(uf.root(r), r);
            assert_eq!(uf.ids[r as usize], r);
        }
    }
}

#[test]
fn root_sizes_always_sum_to_len() {
    let mut uf = WeightedQuickUnion::new(12);
    assert_eq!(root_size_sum(&uf), 12);
    for (p, q) in some_unions() {
        uf.union(p, q);
        assert_eq!(root_size_sum(&uf), 12);
    }
}

#[test]
fn root_size_is_number_of_members() {
    let mut uf = WeightedQuickUnion::new(12);
    for (p, q) in some_unions() {
        uf.union(p, q);
    }
    for r in 0..12u32 {
        if uf.ids[r as usize] == r {
            let members = (0..12).filter(|&i| uf.root(i) == r).count();
            assert_eq!(uf.sizes[r as usize] as usize, members);
        }
    }
}

#[test]
fn connected_is_symmetric() {
    let mut uf = WeightedQuickUnion::new(12);
    for (p, q) in some_unions() {
        uf.union(p, q);
        for a in 0..12 {
            for b in 0..12 {
                assert_eq!(uf.connected(a, b), uf.connected(b, a));
            }
        }
    }
}

#[test]
fn union_order_does_not_change_the_partition() {
    let mut forward = WeightedQuickUnion::new(12);
    let mut backward = WeightedQuickUnion::new(12);
    for (p, q) in some_unions() {
        forward.union(p, q);
        backward.union(q, p);
    }
    for a in 0..12 {
        for b in 0..12 {
            assert_eq!(forward.connected(a, b), backward.connected(a, b));
        }
    }
    // The representatives differ: of two singletons the second named stays.
    let mut pq = WeightedQuickUnion::new(2);
    let mut qp = WeightedQuickUnion::new(2);
    pq.union(0, 1);
    qp.union(1, 0);
    assert_eq!(pq.root(0), 1);
    assert_eq!(qp.root(1), 0);
}

#[test]
fn union_joins_exactly_the_two_sets() {
    let mut uf = WeightedQuickUnion::new(8);
    uf.union(0, 1);
    uf.union(2, 3);
    uf.union(4, 5);
    uf.union(1, 3);
    for i in 0..4 {
        for j in 0..4 {
            assert!(uf.connected(i, j));
        }
        for j in 4..8 {
            assert!(!uf.connected(i, j));
        }
    }
    assert!(uf.connected(4, 5));
    assert!(!uf.connected(6, 7));
    assert!(!uf.connected(4, 6));
}

#[test]
fn climbs_stay_logarithmic() {
    let mut uf = WeightedQuickUnion::new(16);
    // Merging sets of equal size pairwise builds the deepest trees.
    let mut step = 1;
    while step < 16 {
        let mut i = 0;
        while i + step < 16 {
            uf.union(i, i + step);
            i += 2 * step;
        }
        step *= 2;
    }
    assert_eq!(uf.sizes[15], 16);
    for i in 0..16 {
        assert_eq!(uf.root(i), 15);
        assert!(1u32 << depth(&uf, i) <= 16);
    }
    assert_eq!(depth(&uf, 0), 4);
}

#[test]
fn union_keeps_the_lengths() {
    let mut uf = WeightedQuickUnion::new(12);
    for (p, q) in some_unions() {
        uf.union(p, q);
        assert_eq!(uf.ids.len(), 12);
        assert_eq!(uf.sizes.len(), 12);
    }
}
