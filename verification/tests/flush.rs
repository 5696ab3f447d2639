//! What a flush tick decides and what a fold changes.

use blaze::storage::codec::{blobs_to_snapshot, BlobWriter};
use std::cell::RefCell;
use blaze::graph::{EdgeEvent, RoutingBase, ScopeList, ScopedForest, StreamId, StreamPosition, Visibility};
use blaze::ingest::EdgeBuffer;
use blaze::storage::flush::{
    adopt_merge, batch_meta, batch_position, begin_tick, compaction_meta, puffin_metadata, settle_commit, data_file, fold_base, fold_layer,
    next_sequence, plan_after_compaction, plan_fold, plan_tick, prune_covered, stalled_long, AnyBase, FoldPlan,
    Layer, TickPlan,
};
use blaze::storage::members::MemberEncoding;
use blaze::storage::puffin::{self, Blob};
use blaze::storage::retention::{self, Verdict};
use blaze::storage::{
    compact_layers, CommitOutcome, LayeredBase, LocalLayers, PuffinBase, RetentionPolicy, RunSet,
    WriteOptions,
    DEFAULT_FOLD_AFTER_LINKS, DEFAULT_MAX_DELTA_LAYERS,
};
use std::sync::Arc;

fn edge(src: u64, dst: u64, scopes: &[u32]) -> EdgeEvent {
    let visibility = if scopes.is_empty() {
        Visibility::Global
    } else {
        Visibility::Scoped(ScopeList::from_vec(scopes.to_vec()))
    };
    EdgeEvent { src, dst, visibility, event_time_ms: 0, props: None }
}

fn open(blobs: &[Blob]) -> Arc<PuffinBase> {
    let metas = puffin::place(blobs);
    Arc::new(PuffinBase::from_index(puffin::write(blobs, b"{}"), &metas).unwrap())
}

fn publish(blobs: Vec<Blob>) -> Result<(Arc<PuffinBase>, usize), String> {
    Ok((open(&blobs), blobs.len()))
}

fn widen(l: Arc<LayeredBase>) -> AnyBase {
    AnyBase { base: l }
}

fn answers(f: &mut ScopedForest) -> Vec<u64> {
    let mut out = Vec::new();
    for scope in 0..4u32 {
        for node in 0..40u64 {
            out.push(f.scope_root(scope, node));
        }
    }
    out
}

#[test]
fn folds_and_merges_change_no_answer() {
    let mut f = ScopedForest::new();
    f.apply(&edge(30, 20, &[]));
    f.apply(&edge(20, 5, &[1]));
    f.apply(&edge(11, 12, &[2, 3]));
    let before = answers(&mut f);
    let opts = WriteOptions::default();
    let (mut local, blobs) =
        fold_base(&mut f, 1, opts, "a".to_string(), publish, widen).unwrap();
    assert!(blobs > 0);
    assert_eq!(answers(&mut f), before);
    assert_eq!(f.memtable_links(), 0);
    assert_eq!(local.committed_through, None);
    local.record_outcome(CommitOutcome::Committed, 1);
    assert_eq!(local.committed_through, Some(1));

    f.apply(&edge(20, 2, &[]));
    f.apply(&edge(5, 12, &[1]));
    let before = answers(&mut f);
    let (next, _) =
        fold_layer(&mut f, &local, 2, opts, "b".to_string(), publish, widen).unwrap();
    assert_eq!(answers(&mut f), before);
    assert_eq!(next.base.layers(), 2);
    assert_eq!(next.paths, vec!["a", "b"]);
    assert_eq!(next.base_sequence, 1);

    f.apply(&edge(2, 1, &[]));
    let before = answers(&mut f);
    let (blobs, _) = compact_layers(&next.base, 3);
    let flat = adopt_merge(&mut f, &next, open(&blobs), 3, "c".to_string(), widen);
    assert_eq!(answers(&mut f), before);
    assert_eq!(flat.base.layers(), 1);
    assert_eq!(flat.paths, vec!["c"]);
    assert_eq!(flat.committed_through, Some(3));
    assert!(f.memtable_links() > 0, "the memtable stays");
}

#[test]
fn a_fold_that_cannot_publish_leaves_the_forest_alone() {
    let mut f = ScopedForest::new();
    f.apply(&edge(3, 2, &[]));
    let before = answers(&mut f);
    let failed = fold_base(
        &mut f,
        1,
        WriteOptions::default(),
        "a".to_string(),
        |_blobs| Err::<(Arc<PuffinBase>, ()), String>("disk full".to_string()),
        widen,
    );
    assert_eq!(failed.err(), Some("disk full".to_string()));
    assert_eq!(answers(&mut f), before);
    assert_eq!(f.memtable_links(), 1);
}

fn layers(n: usize, committed_through: Option<u64>) -> LocalLayers {
    let mut f = ScopedForest::new();
    f.apply(&edge(3, 2, &[]));
    let (mut local, _) = fold_base(
        &mut f,
        1,
        WriteOptions::default(),
        "0".to_string(),
        publish,
        widen,
    )
    .unwrap();
    for i in 1..n as u64 {
        f.apply(&edge(100 + i, 50 + i, &[]));
        let (next, _) = fold_layer(
            &mut f,
            &local,
            1 + i,
            WriteOptions::default(),
            i.to_string(),
            publish,
            widen,
        )
        .unwrap();
        local = next;
    }
    local.committed_through = committed_through;
    local
}

#[test]
fn a_tick_is_planned_from_what_the_worker_holds() {
    let local = layers(3, Some(3));
    assert_eq!(plan_tick(false, true, Some(&local), 2, 5), TickPlan::FoldLocally);
    assert_eq!(plan_tick(true, true, Some(&local), 3, 5), TickPlan::CompactChain);
    assert_eq!(plan_tick(true, false, Some(&local), 3, 5), TickPlan::Commit);
    assert_eq!(plan_tick(true, true, Some(&local), 4, 5), TickPlan::Commit);
    assert_eq!(plan_tick(true, true, Some(&local), 4, 0), TickPlan::Idle);
    assert_eq!(plan_tick(true, true, None, 1, 1), TickPlan::Commit);
    assert_eq!(plan_after_compaction(true, 5), TickPlan::Idle);
    assert_eq!(plan_after_compaction(false, 5), TickPlan::Commit);
    assert_eq!(plan_after_compaction(false, 0), TickPlan::Idle);
}

#[test]
fn a_fold_is_a_delta_only_over_committed_layers() {
    let committed = layers(2, Some(2));
    let ahead = layers(2, None);
    assert_eq!(plan_fold(false, true, 9, 1, Some(&committed), 24), FoldPlan::Skip);
    assert_eq!(plan_fold(true, false, 9, 10, Some(&committed), 24), FoldPlan::Skip);
    assert_eq!(plan_fold(true, false, 10, 10, Some(&committed), 24), FoldPlan::Delta);
    assert_eq!(plan_fold(true, true, 0, 10, Some(&committed), 24), FoldPlan::Delta);
    assert_eq!(plan_fold(true, true, 0, 10, Some(&ahead), 24), FoldPlan::Base);
    assert_eq!(plan_fold(true, true, 0, 10, Some(&committed), 2), FoldPlan::Base);
    assert_eq!(plan_fold(true, true, 0, 10, None, 24), FoldPlan::Base);
    assert_eq!(DEFAULT_FOLD_AFTER_LINKS, 1_000_000);
    assert_eq!(DEFAULT_MAX_DELTA_LAYERS, 24);
    assert!(!stalled_long(5_000) && stalled_long(5_001));
}

#[test]
fn a_lost_race_leaves_the_layer_local() {
    let mut local = layers(1, None);
    local.record_outcome(CommitOutcome::Conflict, 7);
    assert_eq!(local.committed_through, None);
    assert_eq!(plan_fold(true, true, 0, 1, Some(&local), 24), FoldPlan::Base);
}

#[test]
fn a_commit_covers_its_segments() {
    let mut buf = EdgeBuffer::new();
    buf.append(0, 11, &edge(1, 2, &[]));
    buf.append(2, 5, &edge(1, 2, &[]));
    buf.seal_active();
    buf.append(0, 12, &edge(1, 2, &[7]));
    buf.append(2, 9, &edge(1, 2, &[]));
    buf.seal_active();
    let segments = buf.sealed_segments();

    let previous = compaction_meta(4, 0, None, None, "p".to_string(), "w".to_string());
    assert_eq!(next_sequence(Some(&previous)), 5);
    assert_eq!(next_sequence(None), 1);
    let position = batch_position(Some(&previous), &segments);
    assert_eq!((position.get(0), position.get(2)), (12, 9));

    let file = data_file("d".to_string(), 100, &segments);
    assert_eq!(file.first_position, StreamPosition::from_entries(&[(0, 11), (2, 5)]));
    assert_eq!(file.last_position, StreamPosition::from_entries(&[(0, 12), (2, 9)]));
    assert_eq!((file.min_offset, file.max_offset), (0, 0));
    assert_eq!((file.rows, file.bytes), (4, 100));

    let stream = Some(StreamId::new("file", "edges"));
    let meta = batch_meta(
        5,
        77,
        position.clone(),
        stream,
        file,
        "p5".to_string(),
        "w".to_string(),
        Layer::Delta { base_sequence: 4 },
    );
    assert_eq!((meta.base_sequence, meta.delta_chain_len, meta.watermark), (4, 1, 0));
    assert_eq!(meta.chain(), 4..=5);
    // It lists no runs, so it promises none.
    assert!(matches!(meta.run_set(), Ok(RunSet::SequencesOnly(r)) if r == (4..=5)));
    assert!(matches!(previous.run_set(), Ok(RunSet::SequencesOnly(r)) if r == (4..=4)));
    assert!(meta.advances_from(&previous).is_ok());
    // Keeping the newest snapshot keeps the base that its delta builds on.
    let newest = RetentionPolicy { keep_snapshots: 1, keep_for_ms: 0, grace_ms: 0 };
    let reached = meta.stream_position();
    let kept = retention::plan(&vec![4, 5], &vec![previous, meta], &newest, i64::MAX);
    assert_eq!(kept.judge_snapshot(&newest, i64::MAX, 4, 0), Verdict::Live);
    assert_eq!(kept.judge_snapshot(&newest, i64::MAX, 5, 0), Verdict::Live);
    assert_eq!(kept.judge(&newest, i64::MAX, "p", 0), Verdict::Live);
    assert_eq!(kept.judge(&newest, i64::MAX, "elsewhere", 0), Verdict::Doomed);
    assert_eq!(buf.drop_committed(&reached), 2);
}

#[test]
fn a_single_partition_commit_keeps_its_scalar() {
    let mut buf = EdgeBuffer::new();
    buf.append(0, 3, &edge(1, 2, &[]));
    buf.append(0, 4, &edge(1, 2, &[]));
    buf.seal_active();
    let segments = buf.sealed_segments();
    let file = data_file("d".to_string(), 10, &segments);
    assert_eq!((file.min_offset, file.max_offset), (3, 4));
    let position = batch_position(None, &segments);
    let meta = batch_meta(1, 0, position, None, file, "p".into(), "w".into(), Layer::Base);
    assert_eq!((meta.watermark, meta.base_sequence, meta.delta_chain_len), (4, 1, 0));
    let local = LocalLayers::from_catalog(layers(1, None).base, vec!["x".to_string()], &meta);
    assert_eq!((local.base_sequence, local.committed_through), (1, Some(1)));
    let merged = compaction_meta(2, 5, Some(&meta), None, "q".into(), "w".into());
    assert_eq!((merged.watermark, merged.data_files.len()), (4, 0));
    assert_eq!(merged.chain(), 2..=2);
}

#[test]
fn hydrating_a_base_and_its_deltas_restores_every_answer() {
    let published: RefCell<Vec<Vec<Blob>>> = RefCell::new(Vec::new());
    let mut f = ScopedForest::new();
    f.apply(&edge(30, 20, &[]));
    f.apply(&edge(20, 5, &[1]));
    let mut stack: Vec<Arc<PuffinBase>> = Vec::new();
    for round in 0..3u64 {
        f.apply(&edge(20 - round, 9 - round, &[]));
        f.apply(&edge(12 + round, 8, &[2]));
        f.apply(&edge(30 + round, 31 + round, &[1]));
        let writer = BlobWriter::new(round + 1, WriteOptions::default());
        let under = stack.clone();
        stack = f
            .fold_delta(writer, |w| {
                let blobs = w.finish();
                let mut next = under;
                next.push(open(&blobs));
                published.borrow_mut().push(blobs);
                let base: Arc<dyn RoutingBase> =
                    Arc::new(LayeredBase::from_layers(next.clone()).unwrap());
                Ok::<_, String>((base, next))
            })
            .unwrap();
    }
    let mut cold = ScopedForest::new();
    for blobs in published.borrow().iter() {
        cold.hydrate(&blobs_to_snapshot(blobs).unwrap());
    }
    assert_eq!(answers(&mut cold), answers(&mut f));
    f.apply(&edge(30, 0, &[]));
    cold.apply(&edge(30, 0, &[]));
    assert_eq!(answers(&mut cold), answers(&mut f));
}

#[test]
fn a_tick_seals_and_prunes_before_it_commits() {
    let mut buf = EdgeBuffer::new();
    buf.append(0, 1, &edge(1, 2, &[]));
    begin_tick(&mut buf);
    assert_eq!((buf.active_rows(), buf.stats().sealed_rows), (0, 1));
    assert_eq!(prune_covered(&mut buf, None), 0);
    buf.append(0, 2, &edge(3, 4, &[]));
    let segments = buf.sealed_segments();
    let position = batch_position(None, &segments);
    let file = data_file("d".to_string(), 10, &segments);
    let meta = batch_meta(1, 0, position, None, file, "p".into(), "w".into(), Layer::Base);
    // The next tick seals offset 2 and drops offset 1, which is durable.
    begin_tick(&mut buf);
    assert_eq!(prune_covered(&mut buf, Some(&meta)), 1);
    let left = buf.sealed_segments();
    assert_eq!(left.len(), 1);
    assert_eq!(left[0].first, StreamPosition::single(2));

    let mut local = Some(layers(1, None));
    let reach = batch_position(Some(&meta), &left);
    assert_eq!(settle_commit(&mut buf, &mut local, CommitOutcome::Conflict, 2, &reach), 0);
    assert_eq!(local.as_ref().unwrap().committed_through, None);
    assert_eq!(buf.sealed_segments().len(), 1, "a lost race leaves the segments");
    assert_eq!(settle_commit(&mut buf, &mut local, CommitOutcome::Committed, 2, &reach), 1);
    assert_eq!(local.unwrap().committed_through, Some(2));
}

#[test]
fn a_file_says_who_wrote_it_and_how_far_it_reaches() {
    assert_eq!(
        puffin_metadata(42),
        vec![
            ("created-by".to_string(), "blaze".to_string()),
            ("watermark".to_string(), "42".to_string()),
        ]
    );
}

#[test]
fn swapping_in_an_equivalent_base_keeps_the_memtable() {
    let mut f = ScopedForest::new();
    f.apply(&edge(30, 20, &[]));
    f.apply(&edge(20, 5, &[1]));
    let (local, _) =
        fold_base(&mut f, 1, WriteOptions::default(), "a".to_string(), publish, widen).unwrap();
    f.apply(&edge(20, 2, &[]));
    let before = answers(&mut f);
    let (blobs, _) = compact_layers(&local.base, 2);
    let same: Arc<dyn RoutingBase> = Arc::new(LayeredBase::new(open(&blobs)));
    f.swap_base(same);
    assert_eq!(answers(&mut f), before);
    assert_eq!(f.memtable_links(), 1 + 1);
}

/// Every member of `node`'s component in `scope`, in order.
fn listed(f: &mut ScopedForest, scope: u32, node: u64) -> Vec<u64> {
    let m = f.members(scope, node, 100).expect("the index is there");
    assert!(!m.is_truncated());
    let mut nodes = m.nodes().to_vec();
    nodes.sort_unstable();
    nodes
}

#[test]
fn components_are_listed_from_disk() {
    for members in [MemberEncoding::Flat, MemberEncoding::Blocked] {
        let opts = WriteOptions { member_index: true, members, ..Default::default() };
        let mut f = ScopedForest::new().tracking_members();
        f.apply(&edge(30, 20, &[]));
        f.apply(&edge(20, 5, &[]));
        f.apply(&edge(11, 12, &[2]));
        let (local, _) = fold_base(&mut f, 1, opts, "a".to_string(), publish, widen).unwrap();
        assert!(local.base.has_member_index());
        assert!(f.members_available());
        assert_eq!(f.memtable_links(), 0);
        assert_eq!(listed(&mut f, 0, 20), vec![5, 20, 30]);
        assert_eq!(listed(&mut f, 2, 12), vec![11, 12]);

        // A delta hangs the base's root below another.
        f.apply(&edge(5, 1, &[]));
        f.apply(&edge(30, 12, &[2]));
        let (next, _) =
            fold_layer(&mut f, &local, 2, opts, "b".to_string(), publish, widen).unwrap();
        assert!(next.base.has_member_index());
        assert_eq!(f.memtable_links(), 0);
        assert_eq!(listed(&mut f, 0, 30), vec![1, 5, 20, 30]);
        assert_eq!(listed(&mut f, 2, 11), vec![1, 5, 11, 12, 20, 30]);

        // The memtable goes on above both.
        f.apply(&edge(40, 20, &[]));
        assert_eq!(listed(&mut f, 0, 1), vec![1, 5, 20, 30, 40]);
        let capped = f.members(0, 1, 3).unwrap();
        assert!(capped.is_truncated());
        assert_eq!(capped.nodes().len(), 3);

        // A merge writes no index, and what cannot be listed is refused.
        let (blobs, _) = compact_layers(&next.base, 3);
        let merged = adopt_merge(&mut f, &next, open(&blobs), 3, "c".to_string(), widen);
        assert!(!merged.base.has_member_index());
        assert!(f.members(0, 1, 100).is_none());
    }
}

#[test]
fn a_fold_is_counted_and_counts_nothing_else() {
    let mut f = ScopedForest::new();
    f.apply(&edge(30, 20, &[]));
    f.apply(&edge(20, 5, &[1]));
    let before = f.stats();
    let opts = WriteOptions::default();
    let (local, _) = fold_base(&mut f, 1, opts, "a".to_string(), publish, widen).unwrap();
    let after = f.stats();
    assert_eq!(after.events_applied, before.events_applied);
    assert_eq!(after.folds, before.folds + 1);
    let (_, _) = fold_layer(&mut f, &local, 2, opts, "b".to_string(), publish, widen).unwrap();
    assert_eq!(f.stats().folds, before.folds + 2);
}
