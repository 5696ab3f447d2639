//! The root to scopes registry.

use blaze::graph::{NodeId, ScopeId};
use blaze::storage::registry::{
    BlockedRegistry, RegistryEncoding, RegistryWriter, BLOCKED_BLOB_TYPE, BLOCK_BYTES,
    FLAT_BLOB_TYPE,
};
use blaze::storage::wire::{get_varint, put_varint};
use bytes::Bytes;

const WIDE_ROOT: NodeId = 100_001;

fn entries() -> Vec<(NodeId, ScopeId)> {
    let mut out = Vec::new();
    for root in (0..40_000u64).map(|i| i * 3 + 7) {
        let k = (root % 5) + 1;
        for j in 0..k {
            out.push((root, (1 + j * 137) as ScopeId));
        }
    }
    for scope in 1..3_000u32 {
        out.push((WIDE_ROOT, scope));
    }
    out.sort_unstable();
    out.dedup();
    out
}

#[test]
fn blocked_is_smaller_than_flat_on_dense_roots() {
    let e = entries();
    let mut flat = RegistryWriter::new(RegistryEncoding::Flat);
    let mut blocked = RegistryWriter::new(RegistryEncoding::Blocked);
    for &(r, s) in &e {
        flat.push(r, s);
        blocked.push(r, s);
    }
    let (ft, f) = flat.finish().unwrap();
    let (bt, b) = blocked.finish().unwrap();
    assert_eq!(ft, FLAT_BLOB_TYPE);
    assert_eq!(bt, BLOCKED_BLOB_TYPE);
    assert!(
        b.len() * 2 < f.len(),
        "blocked {} flat {}",
        b.len(),
        f.len()
    );
}

#[test]
fn varints_round_trip_at_the_boundaries() {
    let mut buf = Vec::new();
    let cases = [0u64, 1, 127, 128, 16_383, 16_384, u64::MAX];
    for &v in &cases {
        put_varint(&mut buf, v);
    }
    let mut at = 0;
    for &v in &cases {
        let (got, next) = get_varint(&buf, at).unwrap();
        assert_eq!(got, v);
        at = next;
    }
    assert_eq!(at, buf.len());
    assert!(get_varint(&buf, buf.len()).is_err());
}

fn blocked(entries: &[(NodeId, ScopeId)]) -> (Bytes, BlockedRegistry) {
    let mut w = RegistryWriter::new(RegistryEncoding::Blocked);
    for &(r, s) in entries {
        w.push(r, s);
    }
    let (_, data) = w.finish().unwrap();
    let reg = BlockedRegistry::parse(&data, 0..data.len()).unwrap();
    (data, reg)
}

#[test]
fn registry_blocked_round_trips_in_order() {
    let e = entries();
    let (data, reg) = blocked(&e);
    assert_eq!(reg.count(), e.len());
    assert_eq!(walked(&data, &reg), e);
}

#[test]
fn blocked_lookups_match_the_flat_entries() {
    let e = entries();
    let (data, reg) = blocked(&e);
    let mut expected: std::collections::BTreeMap<NodeId, Vec<ScopeId>> = Default::default();
    for &(r, s) in &e {
        expected.entry(r).or_default().push(s);
    }
    for (&root, scopes) in expected.iter().step_by(7) {
        assert_eq!(reg.scopes_for(&data, root).to_vec(), *scopes);
        for probe in [root - 1, root + 1] {
            let want = expected.get(&probe).cloned().unwrap_or_default();
            assert_eq!(reg.scopes_for(&data, probe).to_vec(), want);
        }
    }
    assert!(reg.scopes_for(&data, 0).to_vec().is_empty());
    assert!(reg.scopes_for(&data, u64::MAX).to_vec().is_empty());
}

#[test]
fn blocked_finds_the_roots_at_both_edges_of_every_block() {
    let e = entries();
    let (data, reg) = blocked(&e);
    assert!(reg.index.first_keys.len() > 10, "test needs many blocks");
    let mut expected: std::collections::BTreeMap<NodeId, Vec<ScopeId>> = Default::default();
    for &(r, s) in &e {
        expected.entry(r).or_default().push(s);
    }
    for (b, &first) in reg.index.first_keys.iter().enumerate() {
        let last = match reg.index.first_keys.get(b + 1) {
            Some(&next) => *expected.range(..next).next_back().unwrap().0,
            None => *expected.keys().next_back().unwrap(),
        };
        for edge in [first, last] {
            assert_eq!(
                reg.scopes_for(&data, edge).to_vec(),
                expected[&edge],
                "block {b} edge root {edge}"
            );
        }
    }
}

#[test]
fn a_root_wider_than_a_block_gets_its_own() {
    let e = entries();
    let (data, reg) = blocked(&e);
    let want: Vec<ScopeId> = e
        .iter()
        .filter(|(r, _)| *r == WIDE_ROOT)
        .map(|(_, s)| *s)
        .collect();
    assert_eq!(want.len(), 2_999);
    assert_eq!(reg.scopes_for(&data, WIDE_ROOT).to_vec(), want);
    let b = reg
        .index
        .first_keys
        .iter()
        .position(|&r| r == WIDE_ROOT)
        .unwrap();
    assert!(
        reg.index.offsets[b + 1] - reg.index.offsets[b] > BLOCK_BYTES as u64,
        "the wide root should have forced an oversized block"
    );
}

#[test]
fn blocked_rejects_a_corrupt_header() {
    let (data, _) = blocked(&entries());
    assert!(BlockedRegistry::parse(&data, 0..8).is_err());
    let mut bad = data.to_vec();
    bad[8] = 0xff; // block count no longer matches the offsets that follow
    assert!(BlockedRegistry::parse(&bad, 0..bad.len()).is_err());
}

#[test]
fn registry_empty_writers_emit_no_blob() {
    assert!(
        RegistryWriter::new(RegistryEncoding::Flat)
            .finish()
            .is_none()
    );
    assert!(
        RegistryWriter::new(RegistryEncoding::Blocked)
            .finish()
            .is_none()
    );
}

fn walked(data: &[u8], reg: &BlockedRegistry) -> Vec<(NodeId, ScopeId)> {
    let mut it = reg.iter(data);
    let mut out = Vec::new();
    while let Some(e) = it.next() {
        out.push(e);
    }
    out
}

#[test]
fn registry_encodings_have_names() {
    assert_eq!(RegistryEncoding::from_str("flat").unwrap(), RegistryEncoding::Flat);
    assert_eq!(RegistryEncoding::default().as_str(), "blocked");
    assert!(RegistryEncoding::from_str("v3").is_err());
    let mut w = RegistryWriter::with_block_size(RegistryEncoding::Blocked, 16);
    for r in 0..50u64 {
        w.push(r * 2, 9);
    }
    assert_eq!(w.entries(), 50);
    let (_, data) = w.finish().unwrap();
    let reg = BlockedRegistry::parse(&data, 0..data.len()).unwrap();
    assert!(reg.index.first_keys.len() > 1);
    assert_eq!(reg.scopes_for(&data, 48).to_vec(), vec![9]);
    assert_eq!(reg.heap_bytes() % 8, 0);
}
