//! Grouping pairs into classes.

use dupdelta::unionfind::UnionFind;

#[test]
fn a_fresh_forest_has_every_element_in_its_own_set() {
    let mut uf = UnionFind::new(3);
    assert_eq!(uf.len(), 3);
    assert!(!uf.is_empty());
    assert_eq!(uf.groups(), vec![vec![0], vec![1], vec![2]]);
}

#[test]
fn an_empty_forest_reports_itself_empty() {
    let mut uf = UnionFind::new(0);
    assert!(uf.is_empty());
    assert_eq!(uf.len(), 0);
    assert!(uf.groups().is_empty());
}

#[test]
fn union_joins_two_sets_and_reports_the_merge() {
    let mut uf = UnionFind::new(2);
    assert!(uf.union(0, 1));
    assert_eq!(uf.find(0), uf.find(1));
}

#[test]
fn union_of_two_elements_already_together_reports_no_merge() {
    let mut uf = UnionFind::new(2);
    uf.union(0, 1);
    assert!(!uf.union(1, 0));
}

#[test]
fn membership_is_transitive() {
    let mut uf = UnionFind::new(4);
    uf.union(0, 1);
    uf.union(2, 3);
    uf.union(1, 2);
    assert_eq!(uf.groups(), vec![vec![0, 1, 2, 3]]);
}

#[test]
fn set_size_counts_every_member() {
    let mut uf = UnionFind::new(4);
    uf.union(0, 1);
    uf.union(1, 2);
    assert_eq!(uf.set_size(2), 3);
    assert_eq!(uf.set_size(3), 1);
}

#[test]
fn union_by_size_attaches_the_smaller_tree_under_the_larger() {
    // Exercises both branches of the size comparison: first union grows the
    // left root, second presents the larger set on the right.
    let mut uf = UnionFind::new(5);
    uf.union(0, 1);
    uf.union(0, 2);
    uf.union(3, 0);
    assert_eq!(uf.set_size(3), 4);
    assert_eq!(uf.groups(), vec![vec![0, 1, 2, 3], vec![4]]);
}

#[test]
fn path_halving_shortens_a_deep_chain() {
    // Build a chain, then prove repeated lookups still resolve correctly.
    let mut uf = UnionFind::new(8);
    for i in 1..8 {
        uf.union(i - 1, i);
    }
    let root = uf.find(7);
    for i in 0..8 {
        assert_eq!(uf.find(i), root);
    }
    assert_eq!(uf.set_size(0), 8);
}

#[test]
fn groups_are_ordered_by_their_lowest_member() {
    let mut uf = UnionFind::new(6);
    uf.union(4, 5);
    uf.union(1, 3);
    assert_eq!(uf.groups(), vec![vec![0], vec![1, 3], vec![2], vec![4, 5]]);
}

#[test]
fn the_forest_clones_and_debugs() {
    let mut uf = UnionFind::new(2);
    uf.union(0, 1);
    let mut copy = uf.clone();
    assert_eq!(copy.groups(), uf.groups());
    assert!(format!("{uf:?}").contains("UnionFind"));
}
