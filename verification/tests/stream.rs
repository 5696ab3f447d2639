//! Positions in a partitioned stream.

use blaze::graph::{StreamId, StreamPosition};

#[test]
fn absent_and_zero_agree() {
    let p = StreamPosition::new();
    assert_eq!(p.get(7), 0);
    assert!(p.is_empty());

    let before = StreamPosition::from_entries(&[(0, 100), (1, 200)]);
    assert_eq!(before.get(9), 0);
}

#[test]
fn advance_takes_the_maximum() {
    let mut p = StreamPosition::single(50);
    p.advance(0, 20);
    assert_eq!(p.get(0), 50, "a partition must not walk backwards");
    p.advance(0, 70);
    assert_eq!(p.get(0), 70);
}

#[test]
fn domination_is_partial() {
    let a = StreamPosition::from_entries(&[(0, 5), (1, 9)]);
    let b = StreamPosition::from_entries(&[(0, 9), (1, 5)]);
    assert!(!a.dominates(&b));
    assert!(!b.dominates(&a));

    let both = StreamPosition::from_entries(&[(0, 9), (1, 9)]);
    assert!(both.dominates(&a) && both.dominates(&b));
    assert!(!a.dominates(&both));
    assert!(a.dominates(&a), "domination is reflexive");
}

#[test]
fn a_partition_that_is_absent_counts_as_covered() {
    let committed = StreamPosition::single(100);
    let segment = StreamPosition::single(90);
    assert!(committed.dominates(&segment));

    let spans_two = StreamPosition::from_entries(&[(0, 90), (1, 1)]);
    assert!(!committed.dominates(&spans_two));
}

#[test]
fn merge_is_the_per_partition_maximum() {
    let mut a = StreamPosition::from_entries(&[(0, 5), (1, 9)]);
    let b = StreamPosition::from_entries(&[(0, 9), (2, 3)]);
    a.merge(&b);
    assert_eq!(a.get(0), 9);
    assert_eq!(a.get(1), 9);
    assert_eq!(a.get(2), 3);
    assert!(a.dominates(&b));
}

#[test]
fn only_single_partition_positions_have_a_scalar() {
    assert_eq!(StreamPosition::new().as_scalar(), Some(0));
    assert_eq!(StreamPosition::single(42).as_scalar(), Some(42));
    let two = StreamPosition::from_entries(&[(0, 1), (1, 2)]);
    assert_eq!(two.as_scalar(), None);
    let odd = StreamPosition::from_entries(&[(3, 7)]);
    assert_eq!(odd.as_scalar(), None);
}

#[test]
fn serialization_is_deterministic_and_ordered() {
    let a = StreamPosition::from_entries(&[(2, 3), (0, 1), (1, 2)]);
    let b = StreamPosition::from_entries(&[(1, 2), (2, 3), (0, 1)]);
    let json = |p: &StreamPosition| {
        let map: std::collections::BTreeMap<String, u64> =
            p.iter().into_iter().map(|(p, o)| (p.to_string(), o)).collect();
        serde_json::to_string(&map).unwrap()
    };
    let ja = json(&a);
    assert_eq!(ja, json(&b));
    assert_eq!(ja, r#"{"0":1,"1":2,"2":3}"#);
    let read: std::collections::BTreeMap<u32, u64> = serde_json::from_str(&ja).unwrap();
    let entries: Vec<(u32, u64)> = read.into_iter().collect();
    assert_eq!(StreamPosition::from_entries(&entries), a);
}

#[test]
fn changing_consumer_group_does_not_change_the_stream() {
    let a = StreamId::new("kafka", "edges").with_group("blaze-1");
    let b = StreamId::new("kafka", "edges").with_group("blaze-2");
    assert!(
        a.same_stream(&b),
        "a group change must not orphan a position"
    );

    let other_topic = StreamId::new("kafka", "edges-v2");
    assert!(!a.same_stream(&other_topic));
    let other_source = StreamId::new("file", "edges");
    assert!(!a.same_stream(&other_source));
}

#[test]
fn positions_and_streams_in_words() {
    assert_eq!(StreamPosition::new().to_text(), "(nothing)");
    assert_eq!(StreamPosition::from_entries(&[(3, 7), (0, 12)]).to_text(), "0:12,3:7");
    assert_eq!(StreamId::new("kafka", "edges").to_text(), "kafka://edges");
    let p = StreamPosition::from_entries(&[(4, 1), (2, 9), (4, 5)]);
    assert_eq!(p.partitions(), vec![2, 4]);
    assert_eq!(p.iter(), vec![(2, 9), (4, 5)]);
    assert_eq!(p.len(), 2);
    assert_eq!(p, p.clone());
    assert_eq!(StreamPosition::default(), StreamPosition::new());
}
