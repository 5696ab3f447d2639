//! The member index.

use blaze::graph::NodeId;
use blaze::storage::members::{
    BlockedMembers, MemberEncoding, MemberWriter, Tier, OVERLAY_BLOCKED_BLOB_TYPE,
    OVERLAY_FLAT_BLOB_TYPE, SHARED_BLOCKED_BLOB_TYPE, SHARED_FLAT_BLOB_TYPE,
};
use bytes::Bytes;

fn write(pairs: &[(NodeId, NodeId)], encoding: MemberEncoding) -> (&'static str, Bytes) {
    let mut w = MemberWriter::new(encoding, Tier::Shared);
    for &(p, c) in pairs {
        w.push(p, c);
    }
    w.finish().expect("pairs were pushed")
}

fn read_back(pairs: &[(NodeId, NodeId)]) -> Vec<(NodeId, NodeId)> {
    let (blob_type, data) = write(pairs, MemberEncoding::Blocked);
    assert_eq!(blob_type, SHARED_BLOCKED_BLOB_TYPE);
    let m = BlockedMembers::parse(&data, 0..data.len()).unwrap();
    m.for_each(&data)
}

#[test]
fn members_blocked_round_trips_in_order() {
    let pairs: Vec<(NodeId, NodeId)> = (0..500u64)
        .flat_map(|p| (0..1 + p % 4).map(move |j| (p * 7, p * 7 + 1 + j * 1_000_000)))
        .collect();
    assert_eq!(read_back(&pairs), pairs);
}

#[test]
fn blocked_lookups_match_what_was_written() {
    let pairs: Vec<(NodeId, NodeId)> = (0..800u64)
        .flat_map(|p| (0..1 + p % 5).map(move |j| (p * 11, 5_000_000 + p * 11 + j * 900_000)))
        .collect();
    let (_, data) = write(&pairs, MemberEncoding::Blocked);
    let m = BlockedMembers::parse(&data, 0..data.len()).unwrap();
    assert!(m.heap_bytes() > 0, "the block index must be in the heap");

    for p in 0..800u64 {
        let want: Vec<NodeId> = pairs
            .iter()
            .filter(|(parent, _)| *parent == p * 11)
            .map(|(_, c)| *c)
            .collect();
        let mut got = Vec::new();
        m.children_of(&data, p * 11, usize::MAX, &mut got);
        assert_eq!(got, want, "children of {}", p * 11);
    }
    for p in [1u64, 3, 7, 12, 100_000] {
        let mut got = Vec::new();
        m.children_of(&data, p, usize::MAX, &mut got);
        assert!(got.is_empty(), "{p} is not a parent, got {got:?}");
    }
}

#[test]
fn a_wide_parent_is_not_split_across_blocks() {
    let pairs: Vec<(NodeId, NodeId)> = (0..2_000u64).map(|j| (42, 100 + j * 7_777)).collect();
    let (_, data) = write(&pairs, MemberEncoding::Blocked);
    let m = BlockedMembers::parse(&data, 0..data.len()).unwrap();
    let mut got = Vec::new();
    m.children_of(&data, 42, usize::MAX, &mut got);
    assert_eq!(got.len(), 2_000);
    assert_eq!(got, pairs.iter().map(|(_, c)| *c).collect::<Vec<_>>());
}

#[test]
fn the_limit_stops_the_decode() {
    let pairs: Vec<(NodeId, NodeId)> = (0..50_000u64).map(|j| (42, 100 + j * 7)).collect();
    let (_, data) = write(&pairs, MemberEncoding::Blocked);
    let m = BlockedMembers::parse(&data, 0..data.len()).unwrap();

    for limit in [0usize, 1, 7, 1_000] {
        let mut got = Vec::new();
        m.children_of(&data, 42, limit, &mut got);
        assert_eq!(got.len(), limit, "limit {limit} not honoured");
        assert_eq!(
            got,
            pairs
                .iter()
                .take(limit)
                .map(|(_, c)| *c)
                .collect::<Vec<_>>()
        );
    }

    let time = |limit: usize| {
        let t = std::time::Instant::now();
        for _ in 0..200 {
            let mut got = Vec::new();
            m.children_of(&data, 42, limit, &mut got);
            std::hint::black_box(&got);
        }
        t.elapsed().as_secs_f64()
    };
    let (small, whole) = (time(1), time(50_000));
    assert!(
        small * 10.0 < whole,
        "a limit of 1 took {small:.6}s against {whole:.6}s for the whole record; \
         the decode is not stopping early"
    );
}

#[test]
fn members_empty_writers_emit_no_blob() {
    assert!(
        MemberWriter::new(MemberEncoding::Blocked, Tier::Shared)
            .finish()
            .is_none()
    );
    assert!(
        MemberWriter::new(MemberEncoding::Flat, Tier::Overlay)
            .finish()
            .is_none()
    );
}

#[test]
fn the_tier_picks_the_blob_type() {
    let one = |t: Tier, e: MemberEncoding| {
        let mut w = MemberWriter::new(e, t);
        w.push(1, 2);
        w.finish().unwrap().0
    };
    assert_eq!(
        one(Tier::Shared, MemberEncoding::Flat),
        SHARED_FLAT_BLOB_TYPE
    );
    assert_eq!(
        one(Tier::Shared, MemberEncoding::Blocked),
        SHARED_BLOCKED_BLOB_TYPE
    );
    assert_eq!(
        one(Tier::Overlay, MemberEncoding::Flat),
        OVERLAY_FLAT_BLOB_TYPE
    );
    assert_eq!(
        one(Tier::Overlay, MemberEncoding::Blocked),
        OVERLAY_BLOCKED_BLOB_TYPE
    );
}

#[test]
fn blocked_is_smaller_than_flat() {
    let pairs: Vec<(NodeId, NodeId)> = (0..20_000u64)
        .flat_map(|p| (0..1 + p % 3).map(move |j| (p * 3, 40_000_000 + p * 3 + j * 61)))
        .collect();
    let flat = write(&pairs, MemberEncoding::Flat).1.len();
    let blocked = write(&pairs, MemberEncoding::Blocked).1.len();
    assert!(
        blocked * 2 < flat,
        "blocked {blocked} is not at least 2x smaller than flat {flat}"
    );
}

#[test]
fn parse_rejects_a_corrupt_header() {
    let (_, data) = write(&[(1, 2), (1, 3), (5, 9)], MemberEncoding::Blocked);
    assert!(BlockedMembers::parse(&data[..8], 0..8).is_err());
    let mut bad = data.to_vec();
    bad[8..16].copy_from_slice(&9_999u64.to_le_bytes());
    assert!(BlockedMembers::parse(&bad, 0..bad.len()).is_err());
}

#[test]
fn member_encodings_have_names() {
    assert_eq!(MemberEncoding::from_str("flat").unwrap(), MemberEncoding::Flat);
    assert_eq!(MemberEncoding::from_str("blocked").unwrap().as_str(), "blocked");
    assert!(MemberEncoding::from_str("Flat").is_err());
    let mut w = MemberWriter::with_block_size(MemberEncoding::Blocked, Tier::Shared, 16);
    for p in 0..40u64 {
        w.push(p, p + 1);
    }
    assert_eq!(w.pairs(), 40);
    let (_, data) = w.finish().unwrap();
    let m = BlockedMembers::parse(&data, 0..data.len()).unwrap();
    assert_eq!(m.pairs(), 40);
    assert_eq!(m.for_each(&data), (0..40u64).map(|p| (p, p + 1)).collect::<Vec<_>>());
}
