//! Layers resolved as one base.

use blaze::graph::{ForestSnapshot, NodeId, RoutingBase, ScopeId};
use blaze::storage::codec::{self, WriteOptions};
use blaze::storage::layered::StackError;
use blaze::storage::puffin;
use blaze::storage::{LayeredBase, PuffinBase};
use std::sync::Arc;

/// A layer of `snap`, as opened from its file.
fn layer(snap: &ForestSnapshot, seq: u64) -> Arc<PuffinBase> {
    let blobs = codec::snapshot_to_blobs(snap, seq, WriteOptions::default());
    let metas = puffin::place(&blobs);
    Arc::new(PuffinBase::from_index(puffin::write(&blobs, b"{}"), &metas).unwrap())
}

fn shared_pairs(l: &LayeredBase) -> Vec<(NodeId, NodeId)> {
    let mut c = l.shared_start();
    let mut out = Vec::new();
    while let Some(p) = l.shared_next(&mut c) {
        out.push(p);
    }
    out
}

fn overlay_pairs(l: &LayeredBase, scope: ScopeId) -> Vec<(NodeId, NodeId)> {
    let mut c = l.overlay_start(scope);
    let mut out = Vec::new();
    while let Some(p) = l.overlay_next(scope, &mut c) {
        out.push(p);
    }
    out
}

fn snap(
    global: &[(NodeId, NodeId)],
    scopes: &[(ScopeId, Vec<(NodeId, NodeId)>)],
) -> ForestSnapshot {
    ForestSnapshot {
        global: global.to_vec(),
        scopes: scopes.to_vec(),
    }
}

#[test]
fn a_delta_reroots_the_base_without_restating_it() {
    let base = layer(&snap(&[(500, 105), (900, 105)], &[]), 1);
    let d1 = layer(&snap(&[(105, 7)], &[]), 2);
    let l = LayeredBase::from_layers(vec![base, d1]).unwrap();

    assert_eq!(l.shared_parent(105), Some(7));
    assert_eq!(l.shared_parent(500), Some(7), "must follow 500 -> 105 -> 7");
    assert_eq!(l.shared_parent(900), Some(7));
    assert_eq!(l.shared_parent(7), None, "7 is the root");
    assert_eq!(l.shared_parent(4242), None);
    assert_eq!(l.delta_count(), 1);
}

#[test]
fn repeated_rerooting_resolves_to_the_newest_root() {
    let base = layer(&snap(&[(900, 500)], &[]), 1);
    let d1 = layer(&snap(&[(500, 105)], &[]), 2);
    let d2 = layer(&snap(&[(105, 40)], &[]), 3);
    let d3 = layer(&snap(&[(40, 3)], &[]), 4);
    let l = LayeredBase::from_layers(vec![base, d1, d2, d3]).unwrap();

    for node in [900, 500, 105, 40] {
        assert_eq!(l.shared_parent(node), Some(3), "node {node}");
    }
    assert_eq!(l.shared_parent(3), None);
    assert_eq!(l.stats().sequence, 4);
}

#[test]
fn merge_emits_every_key_once_sorted_and_resolved() {
    let base = layer(&snap(&[(900, 500), (700, 500), (12, 4)], &[(7, vec![(500, 9)])]),
        1,
    );
    let d1 = layer(&snap(
            &[(500, 105), (33, 4)],
            &[(7, vec![(9, 2)]), (8, vec![(6, 1)])],
        ),
        2,
    );
    let d2 = layer(&snap(&[(105, 40)], &[]), 3);
    let l = LayeredBase::from_layers(vec![base, d1, d2]).unwrap();

    let shared = shared_pairs(&l);
    assert_eq!(
        shared,
        vec![(12, 4), (33, 4), (105, 40), (500, 40), (700, 40), (900, 40)],
        "keys ascending, each once, values fully resolved"
    );

    assert_eq!(l.scopes(), vec![7, 8]);
    let ov = overlay_pairs(&l, 7);
    assert_eq!(ov, vec![(9, 2), (500, 2)], "overlay resolves across layers");
    let ov8 = overlay_pairs(&l, 8);
    assert_eq!(ov8, vec![(6, 1)]);

    let none = overlay_pairs(&l, 999);
    assert!(none.is_empty());
}

#[test]
fn registry_and_scopes_union_across_layers() {
    let base = layer(&snap(&[], &[(7, vec![(50, 9)])]), 1);
    let d1 = layer(&snap(&[], &[(8, vec![(50, 4)])]), 2);
    let l = LayeredBase::from_layers(vec![base, d1]).unwrap();

    let mut scopes = l.scopes_for_root(50).to_vec();
    scopes.sort_unstable();
    assert_eq!(scopes, vec![7, 8], "both layers reference root 50");
    assert!(l.scopes_for_root(12_345).to_vec().is_empty());
}

#[test]
fn rejects_an_empty_layer_list() {
    assert!(LayeredBase::from_layers(vec![]).is_err());
}

#[test]
fn a_spliced_merge_resolves_like_the_layers_it_replaced() {
    let l0 = layer(&snap(&[(900, 500)], &[]), 1);
    let l1 = layer(&snap(&[(500, 105)], &[]), 2);
    let l2 = layer(&snap(&[(105, 40)], &[]), 3);
    let l3 = layer(&snap(&[(40, 3)], &[]), 4);
    let flat = LayeredBase::from_layers(vec![l0, l1, l2.clone(), l3.clone()]).unwrap();

    let sub = flat.slice(0..2).unwrap();
    let merged_pairs = shared_pairs(&sub);
    assert_eq!(merged_pairs, vec![(500, 105), (900, 105)]);
    let merged = layer(&snap(&merged_pairs, &[]),
        2, // inherits the span of what it subsumed
    );

    let tiered = flat.spliced(0..2, merged).unwrap();
    assert_eq!(tiered.layers(), 3, "two layers became one");
    for node in [900, 500, 105, 40] {
        assert_eq!(
            tiered.shared_parent(node),
            flat.shared_parent(node),
            "node {node} resolved differently after the splice"
        );
        assert_eq!(tiered.shared_parent(node), Some(3));
    }
    assert_eq!(tiered.shared_parent(3), None);

    let sub = flat.slice(1..3).unwrap();
    let mid_pairs = shared_pairs(&sub);
    assert_eq!(mid_pairs, vec![(105, 40), (500, 40)]);
    let mid_merged = layer(&snap(&mid_pairs, &[]), 3);

    let mid = flat.spliced(1..3, mid_merged).unwrap();
    assert_eq!(mid.layers(), 3);
    for node in [900, 500, 105, 40] {
        assert_eq!(
            mid.shared_parent(node),
            Some(3),
            "node {node} must still walk L0 -> merged -> L3"
        );
    }
}

#[test]
fn a_slice_or_splice_past_the_stack_is_rejected() {
    let base = layer(&snap(&[(900, 500)], &[]), 1);
    let l = LayeredBase::new(base.clone());

    assert!(l.slice(0..2).is_err(), "range past the end");
    assert!(l.slice(0..0).is_err(), "empty slice has no base");
    assert!(l.spliced(0..0, base.clone()).is_err(), "empty splice range");
    assert!(l.spliced(0..2, base).is_err(), "range past the end");
}

#[test]
fn a_stack_says_why_it_does_not_slice() {
    let base = layer(&snap(&[(900, 500)], &[]), 1);
    let l = LayeredBase::new(base);
    assert!(matches!(LayeredBase::from_layers(vec![]), Err(StackError::NoLayers)));
    assert!(matches!(l.slice(0..2), Err(StackError::BadRange)));
    assert_eq!(l.layers(), 1);
    assert_eq!(l.layer(0).shared_len(), 1);
}

#[test]
fn a_stack_lists_children_layer_by_layer() {
    let opts = WriteOptions { member_index: true, ..Default::default() };
    let indexed = |snap: &ForestSnapshot, seq: u64| {
        let blobs = codec::snapshot_to_blobs(snap, seq, opts);
        let metas = puffin::place(&blobs);
        Arc::new(PuffinBase::from_index(puffin::write(&blobs, b"{}"), &metas).unwrap())
    };
    let base = indexed(&snap(&[(500, 105), (900, 105)], &[(7, vec![(40, 2)])]), 1);
    let d1 = indexed(&snap(&[(700, 105)], &[(7, vec![(50, 2)])]), 2);
    let l = LayeredBase::from_layers(vec![base.clone(), d1]).unwrap();
    assert!(l.has_member_index());
    let mut out = Vec::new();
    l.shared_children(105, 10, &mut out);
    assert_eq!(out, vec![500, 900, 700]);
    out.clear();
    l.shared_children(105, 2, &mut out);
    assert_eq!(out, vec![500, 900]);
    out.clear();
    l.overlay_children(7, 2, 10, &mut out);
    assert_eq!(out, vec![40, 50]);
    out.clear();
    l.shared_children(105, 0, &mut out);
    assert!(out.is_empty());

    // One layer without an index, and the stack has none.
    let plain = layer(&snap(&[(3, 2)], &[]), 3);
    assert!(!LayeredBase::from_layers(vec![base, plain]).unwrap().has_member_index());
}
