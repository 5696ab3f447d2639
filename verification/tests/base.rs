//! Routing bases read from Puffin files.

use blaze::graph::{ForestSnapshot, RoutingBase};
use blaze::storage::base::BaseError;
use blaze::storage::codec::{self, WriteOptions};
use blaze::storage::members::{MemberEncoding, SHARED_BLOCKED_BLOB_TYPE};
use blaze::storage::puffin::{self, Blob};
use blaze::storage::registry::{BLOCKED_BLOB_TYPE, FLAT_BLOB_TYPE};
use blaze::storage::PuffinBase;

/// The blobs written to a file and opened again.
fn open(blobs: &[Blob]) -> Result<PuffinBase, BaseError> {
    let metas = puffin::place(blobs);
    PuffinBase::from_index(puffin::write(blobs, b"{}"), &metas)
}

fn write_base(snap: &ForestSnapshot, with_registry: bool) -> PuffinBase {
    let mut blobs = codec::snapshot_to_blobs(snap, 7, WriteOptions::default());
    if !with_registry {
        blobs.retain(|b| b.blob_type != FLAT_BLOB_TYPE && b.blob_type != BLOCKED_BLOB_TYPE);
    }
    open(&blobs).unwrap()
}

fn shared_keys(base: &PuffinBase) -> Vec<u64> {
    (0..base.shared_len()).map(|i| base.shared_pair_at(i).0).collect()
}

fn overlay_keys(base: &PuffinBase, scope: u32) -> Vec<u64> {
    (0..base.overlay_len(scope)).map(|i| base.overlay_pair_at(scope, i).0).collect()
}

fn sample() -> ForestSnapshot {
    ForestSnapshot {
        global: vec![(500, 105), (900, 105), (7, 3)],
        scopes: vec![(7, vec![(105, 2), (40, 2)]), (2999, vec![(9, 1)])],
    }
}

#[test]
fn lookups_and_iteration() {
    let base = write_base(&sample(), true);
    let stats = base.stats();
    assert_eq!(stats.sequence, 7);
    assert_eq!(stats.shared_pairs, 3);
    assert_eq!(stats.overlay_pairs, 3);
    assert_eq!(stats.scopes, 2);
    assert!(stats.registry_indexed);

    assert_eq!(base.shared_parent(500), Some(105));
    assert_eq!(base.shared_parent(900), Some(105));
    assert_eq!(base.shared_parent(105), None);
    assert_eq!(base.shared_parent(123_456), None);

    assert_eq!(base.overlay_parent(7, 105), Some(2));
    assert_eq!(base.overlay_parent(7, 9), None);
    assert_eq!(base.overlay_parent(2999, 9), Some(1));
    assert_eq!(base.overlay_parent(4242, 105), None);

    assert_eq!(base.scopes(), vec![7, 2999]);
    let mut shared = shared_keys(&base);
    shared.sort_unstable();
    assert_eq!(shared, vec![7, 500, 900]);
    let mut ov = overlay_keys(&base, 7);
    ov.sort_unstable();
    assert_eq!(ov, vec![40, 105]);
}

#[test]
fn registry_index_resolves_live_roots() {
    let base = write_base(&sample(), true);
    assert_eq!(base.scopes_for_root(105).to_vec(), vec![7]);
    assert_eq!(base.scopes_for_root(9).to_vec(), vec![2999]);
    assert_eq!(base.scopes_for_root(1).to_vec(), vec![2999]);
    assert!(base.scopes_for_root(999_999).to_vec().is_empty());
}

#[test]
fn registry_falls_back_when_blob_absent() {
    let base = write_base(&sample(), false);
    assert!(!base.stats().registry_indexed);
    assert_eq!(base.scopes_for_root(105).to_vec(), vec![7]);
    assert_eq!(base.scopes_for_root(2).to_vec(), vec![7]);
    assert_eq!(base.scopes_for_root(9).to_vec(), vec![2999]);
}

#[test]
fn rejects_corrupt_file() {
    assert!(puffin::footer_range(b"not a puffin file at all").is_err());
}

#[test]
fn a_base_says_why_it_does_not_open() {
    let blobs = codec::snapshot_to_blobs(&sample(), 7, WriteOptions::default());
    let metas = puffin::place(&blobs);
    let file = puffin::write(&blobs, b"{}");
    let short = bytes::Bytes::copy_from_slice(&file[..20]);
    assert!(matches!(PuffinBase::from_index(short, &metas), Err(BaseError::File(_))));

    // A table that says it holds more than it does.
    let at = metas[0].range();
    let mut bad = file.to_vec();
    bad[at.start] = 200;
    assert!(PuffinBase::from_index(bytes::Bytes::from(bad), &metas).is_err());

    // A scope blob that does not name its scope.
    let mut blobs = codec::snapshot_to_blobs(&sample(), 7, WriteOptions::default());
    for b in blobs.iter_mut() {
        b.properties.clear();
    }
    assert!(open(&blobs).is_err());
}

#[test]
fn an_empty_snapshot_opens() {
    let empty = ForestSnapshot { global: vec![], scopes: vec![] };
    let base = write_base(&empty, true);
    assert_eq!(base.shared_len(), 0);
    assert_eq!(base.scopes(), Vec::<u32>::new());
    assert_eq!(base.shared_parent(1), None);
}

fn children(base: &PuffinBase, scope: Option<u32>, parent: u64, limit: usize) -> Vec<u64> {
    let mut out = vec![77];
    match scope {
        None => base.shared_children(parent, limit, &mut out),
        Some(s) => base.overlay_children(s, parent, limit, &mut out),
    }
    assert_eq!(out.remove(0), 77, "what was there stays");
    out
}

#[test]
fn a_written_member_index_is_answered_from() {
    for members in [MemberEncoding::Flat, MemberEncoding::Blocked] {
        let opts = WriteOptions { member_index: true, members, ..Default::default() };
        let base = open(&codec::snapshot_to_blobs(&sample(), 7, opts)).unwrap();
        assert!(base.has_member_index());
        assert_eq!(children(&base, None, 105, 10), vec![500, 900]);
        assert_eq!(children(&base, None, 105, 1), vec![500]);
        assert_eq!(children(&base, None, 105, 0), Vec::<u64>::new());
        assert_eq!(children(&base, None, 3, 10), vec![7]);
        assert_eq!(children(&base, None, 900, 10), Vec::<u64>::new());
        assert_eq!(children(&base, Some(7), 2, 10), vec![40, 105]);
        assert_eq!(children(&base, Some(2999), 1, 10), vec![9]);
        assert_eq!(children(&base, Some(8), 2, 10), Vec::<u64>::new());
    }
}

#[test]
fn a_base_without_a_member_index_says_so() {
    let base = write_base(&sample(), true);
    assert!(!base.has_member_index());
    assert_eq!(children(&base, None, 105, 10), Vec::<u64>::new());

    // With one index missing the base cannot answer for all of its tables.
    let opts = WriteOptions { member_index: true, ..Default::default() };
    let mut blobs = codec::snapshot_to_blobs(&sample(), 7, opts);
    blobs.retain(|b| b.blob_type != SHARED_BLOCKED_BLOB_TYPE);
    let base = open(&blobs).unwrap();
    assert!(!base.has_member_index());
    assert_eq!(children(&base, Some(7), 2, 10), vec![40, 105]);

    // There is nothing to list in an empty base.
    let empty = ForestSnapshot { global: vec![], scopes: vec![] };
    assert!(write_base(&empty, true).has_member_index());
}

#[test]
fn a_malformed_member_index_is_passed_over() {
    let opts = WriteOptions { member_index: true, ..Default::default() };
    let mut blobs = codec::snapshot_to_blobs(&sample(), 7, opts);
    for b in blobs.iter_mut() {
        if b.blob_type == SHARED_BLOCKED_BLOB_TYPE {
            b.data = bytes::Bytes::from_static(b"short");
        }
    }
    let base = open(&blobs).unwrap();
    assert!(!base.has_member_index());
    assert_eq!(base.shared_parent(500), Some(105));
}
