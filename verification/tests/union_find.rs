use algorithms::UnionFind;

#[test]
fn union_find_joins_sets() {
    let mut sets = UnionFind::from_ids(&[1, 2, 3, 4, 5]);

    assert!(!sets.connected(1, 2));
    assert_eq!(sets.find(3), 3);

    sets.union(1, 2);
    assert!(sets.connected(1, 2));
    assert_eq!(sets.find(2), 1);

    sets.union(3, 4);
    assert_eq!(sets.find(4), 3);
    sets.union(5, 4);
    assert_eq!(sets.find(5), 3);

    sets.union(2, 5);
    assert_eq!(sets.find(1), 3);
    assert!(sets.connected(1, 4));
    assert!(sets.connected(2, 5));

    sets.union(1, 4);
    assert_eq!(sets.find(2), 3);
}

#[test]
fn union_find_unknown_id_stands_alone() {
    let sets = UnionFind::from_ids(&[1, 2]);

    assert_eq!(sets.find(9), 9);
    assert!(!sets.connected(9, 1));
    assert!(sets.connected(9, 9));
}
