//! Merging layers from storage.

use blaze::graph::{EdgeEvent, RoutingBase, ScopeList, ScopedForest, Visibility, GLOBAL_SCOPE};
use blaze::storage::codec;
use blaze::storage::puffin::{self, Blob};
use blaze::storage::{compact_layers, LayeredBase, PuffinBase, WriteOptions};
use rand::rngs::StdRng;
use rand::{RngExt, SeedableRng};
use std::sync::Arc;

fn write_layer(blobs: &[Blob]) -> Arc<PuffinBase> {
    let metas = puffin::place(blobs);
    Arc::new(PuffinBase::from_index(puffin::write(blobs, b"{}"), &metas).unwrap())
}

#[test]
fn storage_side_compaction_matches_the_in_memory_compactor() {
    const NODES: u64 = 500;
    const SCOPES: [u32; 4] = [1, 2, 3, 4];
    let mut rng = StdRng::seed_from_u64(0xC0117AC7);

    let mut forest = ScopedForest::new();
    let mut layers: Vec<Arc<PuffinBase>> = Vec::new();
    for round in 0..5u64 {
        for _ in 0..300 {
            let (u, v) = (rng.random_range(0..NODES), rng.random_range(0..NODES));
            let visibility = if rng.random_range(0..100) < 30 {
                Visibility::Global
            } else {
                Visibility::Scoped(ScopeList::from_vec(vec![
                    SCOPES[rng.random_range(0..SCOPES.len())]
                ]))
            };
            forest.apply(&EdgeEvent {
                src: u,
                dst: v,
                visibility,
                event_time_ms: 0,
                props: None,
            });
        }
        let writer = codec::BlobWriter::new(round + 1, WriteOptions::default());
        let stack = layers.clone();
        forest
            .fold_delta(writer, |w| {
                let layer = write_layer(&w.finish());
                let mut next = stack;
                next.push(layer);
                let base: Arc<dyn RoutingBase> =
                    Arc::new(LayeredBase::from_layers(next.clone()).unwrap());
                Ok::<_, String>((base, next))
            })
            .map(|next| layers = next)
            .unwrap();
    }
    assert_eq!(layers.len(), 5, "one base plus four deltas");

    let stack = LayeredBase::from_layers(layers.clone()).unwrap();
    assert_eq!(stack.delta_count(), 4);

    let (blobs, stats) = compact_layers(&stack, 99);
    assert!(stats.shared_pairs > 0 && stats.overlay_pairs > 0);
    assert!(
        stats.registry_corrections < stats.registry_entries,
        "corrections must stay a fraction of the registry, got {}/{}",
        stats.registry_corrections,
        stats.registry_entries
    );
    let compacted = write_layer(&blobs);
    let flat = LayeredBase::new(compacted);

    let mut reference =
        ScopedForest::with_base(Arc::new(LayeredBase::from_layers(layers.clone()).unwrap()));

    let mut served = ScopedForest::with_base(Arc::new(flat));
    for node in 0..NODES {
        for scope in [GLOBAL_SCOPE, 1, 2, 3, 4, 77] {
            assert_eq!(
                served.scope_root(scope, node),
                reference.scope_root(scope, node),
                "scope {scope} root({node}) diverged after storage-side compaction"
            );
        }
    }

    let before = LayeredBase::from_layers(layers).unwrap();
    let after = LayeredBase::new(write_layer(&blobs));
    let mut checked = 0usize;
    for root in 0..NODES {
        let live = before.shared_parent(root).unwrap_or(root);
        let got = after.scopes_for_root(live).to_vec();
        for scope in before.scopes_for_root(root).to_vec() {
            assert!(
                got.contains(&scope),
                "scope {scope} was registered on root {root} (live {live}) \
                 and is missing after compaction"
            );
            checked += 1;
        }
    }
    assert!(
        checked > 100,
        "expected plenty of registrations, saw {checked}"
    );

    for root in 0..NODES {
        for scope in after.scopes_for_root(root).to_vec() {
            let originally = (0..NODES).any(|r| {
                before.shared_parent(r).unwrap_or(r) == root
                    && before.scopes_for_root(r).to_vec().contains(&scope)
            });
            assert!(
                originally,
                "compaction invented a registration of scope {scope} on root {root}"
            );
        }
    }
}

#[test]
fn compaction_collapses_the_chain() {
    let mut forest = ScopedForest::new();
    for i in 0..50u64 {
        forest.apply(&EdgeEvent {
            src: i,
            dst: i + 1,
            visibility: Visibility::Global,
            event_time_ms: 0,
            props: None,
        });
    }
    let mut w = codec::BlobWriter::new(1, WriteOptions::default());
    forest.compact_into(&mut w);
    let base = write_layer(&w.finish());
    for n in 1..=50u64 {
        assert_eq!(base.shared_parent(n), Some(0), "chain roots at 0");
    }

    let mut forest2 = ScopedForest::with_base(Arc::new(LayeredBase::new(base.clone())));
    forest2.apply(&EdgeEvent {
        src: 0,
        dst: 0xFFFF_FFFF, // absorbed: 0 is lower, so 0 stays the root
        visibility: Visibility::Global,
        event_time_ms: 0,
        props: None,
    });
    let w2 = codec::BlobWriter::new(2, WriteOptions::default());
    let d1 = forest2
        .fold_delta(w2, |w| {
            let layer = write_layer(&w.finish());
            let base: Arc<dyn RoutingBase> =
                Arc::new(LayeredBase::from_layers(vec![base.clone(), layer.clone()]).unwrap());
            Ok::<_, String>((base, layer))
        })
        .unwrap();

    let stack = LayeredBase::from_layers(vec![base, d1]).unwrap();
    assert_eq!(stack.delta_count(), 1);
    let (blobs, stats) = compact_layers(&stack, 3);
    assert_eq!(stats.shared_pairs, 51);

    let flat = LayeredBase::new(write_layer(&blobs));
    assert_eq!(
        flat.delta_count(),
        0,
        "the chain is collapsed, not restated"
    );
    for n in 1..=50u64 {
        assert_eq!(flat.shared_parent(n), Some(0));
    }
    assert_eq!(flat.shared_parent(0xFFFF_FFFF), Some(0));
    assert_eq!(flat.shared_parent(0), None);
}
