//! The union-find forest.

use blaze::graph::{Dsu, NodeId};

#[test]
fn union_find_basics() {
    let mut d = Dsu::new();
    assert_eq!(d.find(7), 7);
    assert!(!d.connected(1, 2));
    assert!(d.union(1, 2).is_some());
    assert!(d.connected(1, 2));
    assert!(d.union(1, 2).is_none());
    d.union(3, 4);
    assert!(!d.connected(2, 3));
    d.union(2, 3);
    assert!(d.connected(1, 4));
    assert_eq!(d.merges(), 3);
}

#[test]
fn lowest_id_wins() {
    let mut d = Dsu::new();
    let m = d.union(500, 105).unwrap();
    assert_eq!(m.parent, 105);
    assert_eq!(m.child, 500);
    assert_eq!(d.find(500), 105);
    assert_eq!(d.find_ro(500), 105);

    for k in (10..20u64).rev() {
        d.union(k, k + 1);
    }
    for k in 10..=20u64 {
        assert_eq!(d.find_ro(k), 10);
        assert_eq!(d.find(k), 10);
    }
    let m = d.union(500, 15).unwrap();
    assert_eq!(m.parent, 10);
    assert_eq!(d.find_ro(105), 10);
}

#[test]
fn find_ro_repairs_long_chains() {
    let mut d = Dsu::new();
    for k in (0..200u64).rev() {
        d.union(k, k + 1);
    }
    assert_eq!(d.find_ro(200), 0);
    assert_eq!(d.parent(200).unwrap(), 0);
}

fn children(d: &Dsu, parent: NodeId) -> Vec<NodeId> {
    let mut out = Vec::new();
    d.children_of(parent, &mut out);
    out.sort_unstable();
    out
}

#[test]
fn compression_does_not_hide_a_member() {
    let mut d = Dsu::tracking_members(true);
    for k in (0..200u64).rev() {
        d.union(k, k + 1);
    }
    assert_eq!(d.find_ro(200), 0);
    assert_eq!(
        d.parent(200).unwrap(),
        0,
        "the repair write happened"
    );
    assert_eq!(
        children(&d, 0),
        vec![1],
        "the merge edge is what is indexed"
    );
    assert_eq!(children(&d, 199), vec![200], "and 200 is still 199's child");

    let mut seen = vec![0u64];
    let mut frontier = vec![0u64];
    while let Some(k) = frontier.pop() {
        let kids = children(&d, k);
        seen.extend(&kids);
        frontier.extend(&kids);
    }
    seen.sort_unstable();
    assert_eq!(seen, (0..=200u64).collect::<Vec<_>>());
}

#[test]
fn tracking_is_opt_in() {
    let mut d = Dsu::new();
    d.union(500, 105);
    assert!(!d.tracks_members());
    assert!(children(&d, 105).is_empty(), "no index, no children");
    assert_eq!(d.find(500), 105, "and resolution is unaffected");
}

#[test]
fn hydrate_records_the_index_too() {
    let mut src = Dsu::new();
    for i in 0..50u64 {
        src.union(i, i + 1);
    }
    let mut fresh = Dsu::tracking_members(true);
    fresh.hydrate(&src.snapshot());
    assert_eq!(children(&fresh, 0), (1..=50u64).collect::<Vec<_>>());
}

#[test]
fn snapshot_roundtrip() {
    let mut d = Dsu::new();
    for i in 0..100u64 {
        d.union(i, i + 1);
    }
    d.union(500, 105);
    let snap = d.snapshot();

    for &(_, r) in &snap {
        assert!(r == 0 || r == 105);
    }

    let mut fresh = Dsu::new();
    fresh.hydrate(&snap);
    assert!(fresh.connected(0, 100));
    assert!(fresh.connected(500, 105));
    assert!(!fresh.connected(0, 500));
    for &(n, r) in &snap {
        assert_eq!(fresh.find(n), fresh.find(r));
    }
}

#[test]
fn union_reports_the_absorbed_root() {
    let mut d = Dsu::new();
    d.union(4, 9);
    d.union(7, 2);
    let m = d.union(9, 7).unwrap();
    assert_eq!((m.parent, m.child), (2, 4));
    assert!(d.union(4, 7).is_none());
    assert_eq!(d.len_links(), 3);
    assert_eq!(d.keys().len(), 3);
    assert_eq!(d.parent(2), None);
}

#[test]
fn a_snapshot_is_sorted_and_resolved() {
    let mut d = Dsu::new();
    d.union(30, 20);
    d.union(20, 10);
    d.union(8, 7);
    let mut snap = d.snapshot();
    snap.sort_unstable();
    assert_eq!(snap, vec![(8, 7), (20, 10), (30, 10)]);
}
