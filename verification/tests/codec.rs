//! What a forest looks like as blobs.

use blaze::graph::{EdgeEvent, ForestSnapshot, NodeId, ScopeList, ScopedForest, SnapshotSink, Visibility};
use blaze::storage::codec::{
    blobs_to_snapshot, compact_to_blobs, decode_pairs, decode_registry, encode_members,
    encode_pairs, encode_registry, registry_from_snapshot, scope_of, snapshot_to_blobs,
    table_keys, BlobWriter, CodecError, OVERLAY_MEMBERS_FILTER_BLOB_TYPE,
    SHARED_MEMBERS_FILTER_BLOB_TYPE,
};
use blaze::storage::filter::{overlay_key, BlockedFilter};
use blaze::storage::members::{BlockedMembers, Tier};
use blaze::storage::puffin::{self, Blob};
use blaze::storage::{MemberEncoding, RegistryEncoding, WriteOptions};
use bytes::Bytes;
use rand::rngs::StdRng;
use rand::{RngExt, SeedableRng};


#[test]
fn snapshot_blob_roundtrip() {
    let snap = ForestSnapshot {
        global: vec![(500, 105), (7, 105)],
        scopes: vec![(3, vec![(9, 1)]), (2999, vec![(4, 2), (8, 2)])],
    };
    let blobs = snapshot_to_blobs(&snap, 12, WriteOptions::default());
    let file = puffin::write(&blobs, b"{}");
    let parsed = puffin::read(&file, puffin::place(&blobs)).unwrap();
    let back = blobs_to_snapshot(&parsed).unwrap();

    let mut expected_global = snap.global.clone();
    expected_global.sort_unstable();
    let mut got_global = back.global.clone();
    got_global.sort_unstable();
    assert_eq!(got_global, expected_global);
    assert_eq!(back.scopes.len(), 2);
    assert_eq!(back.scopes[0].0, 3);
    assert_eq!(back.scopes[1].0, 2999);
    assert_eq!(back.scopes[1].1, vec![(4, 2), (8, 2)]);
}

#[test]
fn streaming_and_collecting_paths_agree_byte_for_byte() {
    let mut rng = StdRng::seed_from_u64(0xC0DEC);
    let mut forest = ScopedForest::new();
    for _ in 0..2_000 {
        let visibility = if rng.random_range(0..100u8) < 25 {
            Visibility::Global
        } else {
            Visibility::Scoped(ScopeList::from_vec(vec![rng.random_range(1..=40u32)]))
        };
        forest.apply(&EdgeEvent {
            src: rng.random_range(0..400u64),
            dst: rng.random_range(0..400u64),
            visibility,
            event_time_ms: 0,
            props: None,
        });
    }

    let streamed = compact_to_blobs(&mut forest, 9, WriteOptions::default());
    let collected = snapshot_to_blobs(&forest.snapshot(), 9, WriteOptions::default());
    let fields = |bs: &[Blob]| -> Vec<(String, Vec<(String, String)>, Vec<u8>)> {
        bs.iter()
            .map(|b| (b.blob_type.clone(), b.properties.clone(), b.data.to_vec()))
            .collect()
    };
    assert!(streamed.len() > 20, "test should exercise many scope blobs");
    assert_eq!(fields(&streamed), fields(&collected));
}

#[test]
fn decode_rejects_truncated() {
    assert!(decode_pairs(&[1, 2, 3]).is_err());
    let mut bad = encode_pairs(&vec![(1, 2)]).to_vec();
    bad.truncate(bad.len() - 1);
    assert!(decode_pairs(&bad).is_err());
}


fn table(pairs: &[(NodeId, NodeId)]) -> Bytes {
    encode_pairs(&pairs.to_vec())
}

fn decode_inverse(data: &[u8], blob_type: &str) -> Vec<(NodeId, NodeId)> {
    if blob_type.ends_with("-v1") {
        return table_keys(data);
    }
    let m = BlockedMembers::parse(data, 0..data.len()).unwrap();
    m.for_each(data)
}

fn invert(pairs: &[(NodeId, NodeId)], encoding: MemberEncoding) -> Vec<(NodeId, NodeId)> {
    let t = table(pairs);
    match encode_members(&t, encoding, Tier::Shared) {
        Some((blob_type, data, _)) => decode_inverse(&data, blob_type),
        None => Vec::new(),
    }
}

#[test]
fn inverts_and_groups_children_together() {
    for encoding in [MemberEncoding::Flat, MemberEncoding::Blocked] {
        let inv = invert(&[(1, 1), (2, 1), (3, 1), (4, 2)], encoding);
        assert_eq!(inv, vec![(1, 2), (1, 3), (2, 4)], "{}", encoding.as_str());
    }
}

#[test]
fn self_edges_are_dropped() {
    for encoding in [MemberEncoding::Flat, MemberEncoding::Blocked] {
        let inv = invert(&[(7, 7), (9, 9)], encoding);
        assert!(inv.is_empty(), "a self-edge would loop the walk: {inv:?}");
    }
}

#[test]
fn the_two_write_paths_agree() {
    let opts = WriteOptions {
        member_index: true,
        ..Default::default()
    };
    let snap = ForestSnapshot {
        global: vec![(1, 1), (2, 1), (3, 1), (4, 2)],
        scopes: vec![(7, vec![(1, 1), (5, 1)])],
    };
    let from_snapshot = snapshot_to_blobs(&snap, 1, opts);

    let mut w = BlobWriter::new(1, opts);
    for &(n, r) in &snap.global {
        w.shared_pair(n, r);
    }
    for (scope, pairs) in &snap.scopes {
        w.scope_start(*scope);
        for &(n, r) in pairs {
            w.overlay_pair(n, r);
        }
        w.scope_end(*scope);
    }
    let from_stream = w.finish();

    for prefix in ["blaze-shared-members-v", "blaze-overlay-members-v"] {
        let a: Vec<_> = from_snapshot
            .iter()
            .filter(|b| b.blob_type.starts_with(prefix))
            .map(|b| (&b.properties, decode_inverse(&b.data, &b.blob_type)))
            .collect();
        let b: Vec<_> = from_stream
            .iter()
            .filter(|b| b.blob_type.starts_with(prefix))
            .map(|b| (&b.properties, decode_inverse(&b.data, &b.blob_type)))
            .collect();
        assert_eq!(a, b, "{prefix}* differs between write paths");
        assert!(!a.is_empty(), "{prefix}* was not written at all");
    }
}

#[test]
fn nothing_is_written_when_the_option_is_off() {
    let snap = ForestSnapshot {
        global: vec![(2, 1)],
        scopes: vec![],
    };
    let blobs = snapshot_to_blobs(&snap, 1, WriteOptions::default());
    assert!(
        !blobs.iter().any(|b| b.blob_type.contains("members")),
        "member index written despite being off"
    );
}

#[test]
fn the_member_filters_never_reject_a_key_that_is_present() {
    let snap = ForestSnapshot {
        global: (2..500).map(|n| (n, 1)).collect(),
        scopes: vec![
            (7, (600..800).map(|n| (n, 3)).collect()),
            (9, (800..900).map(|n| (n, 5)).collect()),
        ],
    };
    for encoding in [MemberEncoding::Flat, MemberEncoding::Blocked] {
        let blobs = snapshot_to_blobs(
            &snap,
            1,
            WriteOptions {
                member_index: true,
                members: encoding,
                ..Default::default()
            },
        );
        let by_type = |t: &str| blobs.iter().find(|b| b.blob_type == t).expect(t);
        let shared =
            BlockedFilter::decode(&by_type(SHARED_MEMBERS_FILTER_BLOB_TYPE).data).unwrap();
        let overlay =
            BlockedFilter::decode(&by_type(OVERLAY_MEMBERS_FILTER_BLOB_TYPE).data).unwrap();

        let mut checked = 0usize;
        for blob in &blobs {
            let tier = if blob.blob_type.starts_with("blaze-shared-members-v") {
                Tier::Shared
            } else if blob.blob_type.starts_with("blaze-overlay-members-v") {
                Tier::Overlay
            } else {
                continue;
            };
            let scope = if tier == Tier::Overlay { scope_of(blob) } else { 0 };
            let parents: Vec<NodeId> = decode_inverse(&blob.data, &blob.blob_type)
                .into_iter()
                .map(|(p, _)| p)
                .collect();
            for parent in parents {
                let ok = match tier {
                    Tier::Shared => shared.may_contain(parent),
                    Tier::Overlay => {
                        overlay.may_contain(overlay_key(scope, parent))
                    }
                };
                assert!(ok, "{}: parent {parent} in scope {scope} rejected", encoding.as_str());
                checked += 1;
            }
        }
        assert!(checked >= 3, "{}: filters covered nothing", encoding.as_str());

        let absent = (10_000..11_000u64)
            .filter(|n| !shared.may_contain(*n))
            .count();
        assert!(
            absent > 900,
            "{}: the shared member filter rejects almost nothing ({absent}/1000)", encoding.as_str()
        );
    }
}

#[test]
fn no_filter_bits_means_no_member_filters() {
    let snap = ForestSnapshot {
        global: vec![(2, 1), (3, 1)],
        scopes: vec![],
    };
    let blobs = snapshot_to_blobs(
        &snap,
        1,
        WriteOptions {
            member_index: true,
            filter_bits: 0,
            ..Default::default()
        },
    );
    assert!(
        blobs
            .iter()
            .any(|b| b.blob_type.starts_with("blaze-shared-members-v")),
        "the index itself must still be written"
    );
    assert!(
        !blobs.iter().any(|b| b.blob_type.contains("members-filter")),
        "filters written at 0 bits"
    );
}

#[test]
fn pairs_are_sorted_and_read_back() {
    let data = encode_pairs(&vec![(9, 1), (2, 1), (5, 3)]);
    assert_eq!(data.len(), 8 + 3 * 16);
    assert_eq!(decode_pairs(&data).unwrap(), vec![(2, 1), (5, 3), (9, 1)]);
    assert_eq!(&data[..8], &3u64.to_le_bytes());
}

#[test]
fn a_registry_names_the_live_roots_of_both_ends() {
    let snap = ForestSnapshot {
        global: vec![(105, 40)],
        scopes: vec![(7, vec![(105, 2)]), (3, vec![(105, 2), (9, 2)])],
    };
    let entries = registry_from_snapshot(&snap);
    assert_eq!(entries, vec![(2, 3), (2, 7), (9, 3), (40, 3), (40, 7)]);
    let (blob_type, data) = encode_registry(&entries, RegistryEncoding::Flat).unwrap();
    assert_eq!(blob_type, "blaze-registry-v1");
    assert_eq!(decode_registry(&data).unwrap(), entries);
    assert!(decode_registry(&data[..data.len() - 1]).is_err());
    assert!(encode_registry(&vec![], RegistryEncoding::Blocked).is_none());
}

#[test]
fn blobs_say_why_they_are_no_snapshot() {
    let snap = ForestSnapshot { global: vec![(2, 1)], scopes: vec![(7, vec![(9, 4)])] };
    let mut blobs = snapshot_to_blobs(&snap, 1, WriteOptions::default());
    for b in blobs.iter_mut() {
        b.properties.clear();
    }
    assert!(matches!(blobs_to_snapshot(&blobs), Err(CodecError::MissingScope)));
    for b in blobs.iter_mut() {
        b.properties.push(("scope-id".to_string(), "seven".to_string()));
    }
    assert!(matches!(blobs_to_snapshot(&blobs), Err(CodecError::BadScope)));
    blobs[0].data = Bytes::from_static(b"short");
    assert!(matches!(blobs_to_snapshot(&blobs), Err(CodecError::Table(_))));
}
