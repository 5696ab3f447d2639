//! Edge buffering.

use blaze::graph::{EdgeEvent, ScopeList, StreamPosition, Visibility};
use blaze::ingest::buffer::BufferStats;
use blaze::ingest::EdgeBuffer;

fn ev(src: u64, dst: u64, vis: Visibility) -> EdgeEvent {
    EdgeEvent {
        src,
        dst,
        visibility: vis,
        event_time_ms: 1_700_000_000_000,
        props: Some(r#"{"w":1}"#.to_string()),
    }
}

#[test]
fn explode_seal_and_prune() {
    let mut buf = EdgeBuffer::new();
    buf.append(0, 1, &ev(1, 2, Visibility::Global));
    buf.append(0, 2, &ev(3, 4, Visibility::Scoped(ScopeList::from_vec(vec![7, 9]))));
    assert_eq!(buf.stats().active_rows, 3);

    let seg = buf.seal_active().expect("segment");
    assert_eq!(seg.rows.len(), 3);
    assert_eq!(seg.first, StreamPosition::single(1));
    assert_eq!(seg.last, StreamPosition::single(2));
    assert_eq!(buf.stats().active_rows, 0);
    assert_eq!(buf.stats().sealed_segments, 1);

    let scopes: Vec<u32> = seg.rows.iter().map(|r| r.scope).collect();
    assert_eq!(scopes, vec![0, 7, 9]);

    assert!(buf.seal_active().is_none());

    buf.append(0, 3, &ev(5, 6, Visibility::Global));
    buf.seal_active();
    assert_eq!(buf.stats().sealed_segments, 2);

    assert_eq!(buf.drop_committed(&StreamPosition::single(2)), 1);
    assert_eq!(buf.stats().sealed_segments, 1);
    assert_eq!(buf.drop_committed(&StreamPosition::single(3)), 1);
    assert_eq!(buf.stats().sealed_segments, 0);
}

#[test]
fn a_segment_spanning_two_partitions_needs_both_committed() {
    let mut buf = EdgeBuffer::new();
    buf.append(0, 10, &ev(1, 2, Visibility::Global));
    buf.append(3, 4, &ev(3, 4, Visibility::Global));
    let seg = buf.seal_active().expect("segment");
    assert_eq!(seg.first, StreamPosition::from_entries(&[(0, 10), (3, 4)]));
    assert_eq!(seg.last, StreamPosition::from_entries(&[(0, 10), (3, 4)]));

    let one_side = StreamPosition::from_entries(&[(0, 99)]);
    assert_eq!(
        buf.drop_committed(&one_side),
        0,
        "dropped an undurable segment"
    );
    assert_eq!(buf.stats().sealed_segments, 1);

    let nearly = StreamPosition::from_entries(&[(0, 99), (3, 3)]);
    assert_eq!(buf.drop_committed(&nearly), 0);

    let both = StreamPosition::from_entries(&[(0, 99), (3, 4)]);
    assert_eq!(buf.drop_committed(&both), 1);
    assert_eq!(buf.stats().sealed_segments, 0);
}

#[test]
fn each_partition_keeps_its_own_span() {
    let mut buf = EdgeBuffer::new();
    buf.append(1, 100, &ev(1, 2, Visibility::Global));
    buf.append(2, 5, &ev(3, 4, Visibility::Global));
    buf.append(1, 101, &ev(5, 6, Visibility::Global));
    buf.append(2, 9, &ev(7, 8, Visibility::Global));

    let seg = buf.seal_active().expect("segment");
    assert_eq!(seg.first, StreamPosition::from_entries(&[(1, 100), (2, 5)]));
    assert_eq!(seg.last, StreamPosition::from_entries(&[(1, 101), (2, 9)]));

        let mut seen: Vec<u32> = seg.rows.iter().map(|r| r.partition).collect();
    seen.sort_unstable();
    assert_eq!(seen, vec![1, 1, 2, 2]);
}

#[test]
fn a_sealed_segment_is_sorted_by_scope_and_source() {
    let mut buf = EdgeBuffer::new();
    buf.append(0, 1, &ev(90, 1, Visibility::Scoped(ScopeList::from_vec(vec![5, 2]))));
    buf.append(0, 2, &ev(40, 2, Visibility::Scoped(ScopeList::from_vec(vec![5]))));
    buf.append(0, 3, &ev(70, 3, Visibility::Global));
    assert_eq!(buf.active_rows(), 4);
    let seg = buf.seal_active().unwrap();
    let keys: Vec<(u32, u64, u64)> = seg.rows.iter().map(|r| (r.scope, r.src, r.offset)).collect();
    assert_eq!(keys, vec![(0, 70, 3), (2, 90, 1), (5, 40, 2), (5, 90, 1)]);
    assert!(seg.rows.iter().all(|r| r.props.as_deref() == Some(r#"{"w":1}"#)));
    assert_eq!(buf.sealed_segments().len(), 1);
    let stats = buf.stats();
    assert!(stats.sealed_bytes > 0, "sealed rows take memory");
    assert_eq!(
        stats,
        BufferStats {
            active_rows: 0,
            sealed_rows: 4,
            sealed_segments: 1,
            sealed_bytes: stats.sealed_bytes,
        }
    );
}
