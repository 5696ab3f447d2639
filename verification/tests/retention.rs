//! What a sweep keeps and what it reclaims.

use blaze::graph::StreamPosition;
use blaze::storage::catalog::FORMAT_RUN_SETS;
use blaze::storage::retention::{plan, sweep_plan, Verdict};
use blaze::storage::{DataFileMeta, Reclaimed, RetentionPolicy, RunMeta, SnapshotMeta};
use std::collections::BTreeMap;

const AFTER_EVERYTHING: i64 = 4_000_000_000_000;
const WRITTEN: i64 = 1_000;

fn run(path: &str, min_sequence: u64, max_sequence: u64) -> RunMeta {
    RunMeta { path: path.to_string(), level: 0, min_sequence, max_sequence, pairs: 1, bytes: 1 }
}

fn meta(sequence: u64, runs: Vec<RunMeta>) -> SnapshotMeta {
    let puffin_path = match runs.last() {
        Some(r) => r.path.clone(),
        None => String::new(),
    };
    SnapshotMeta {
        sequence,
        committed_at_ms: WRITTEN,
        watermark: sequence,
        position: StreamPosition::new(),
        stream: None,
        data_files: vec![DataFileMeta {
            path: format!("data/part-{sequence}.parquet"),
            rows: 1,
            bytes: 1,
            min_offset: 0,
            max_offset: 0,
            first_position: StreamPosition::new(),
            last_position: StreamPosition::new(),
        }],
        puffin_path,
        committer: "test".to_string(),
        base_sequence: 0,
        delta_chain_len: 0,
        runs,
        format_version: FORMAT_RUN_SETS,
    }
}

fn copy(m: &SnapshotMeta) -> SnapshotMeta {
    let mut c = meta(
        m.sequence,
        m.runs.iter().map(|r| run(&r.path, r.min_sequence, r.max_sequence)).collect(),
    );
    c.committed_at_ms = m.committed_at_ms;
    c.puffin_path = m.puffin_path.clone();
    c.base_sequence = m.base_sequence;
    c.delta_chain_len = m.delta_chain_len;
    c.format_version = m.format_version;
    c
}

fn policy(keep_snapshots: usize) -> RetentionPolicy {
    RetentionPolicy { keep_snapshots, keep_for_ms: 0, grace_ms: 0 }
}

/// A table: its objects with the time each was written, and its snapshots.
struct Table {
    objects: BTreeMap<String, i64>,
    snaps: Vec<SnapshotMeta>,
}

impl Table {
    fn new(snaps: Vec<SnapshotMeta>) -> Table {
        let mut objects = BTreeMap::new();
        for m in snaps.iter() {
            objects.insert(m.puffin_path.clone(), WRITTEN);
            for r in m.runs.iter() {
                objects.insert(r.path.clone(), WRITTEN);
            }
            for f in m.data_files.iter() {
                objects.insert(f.path.clone(), WRITTEN);
            }
        }
        Table { objects, snaps }
    }

    fn sweep(&mut self, policy: &RetentionPolicy, now: i64) -> Reclaimed {
        let all: Vec<u64> = self.snaps.iter().map(|m| m.sequence).collect();
        let read: Vec<Option<SnapshotMeta>> = self.snaps.iter().map(|m| Some(copy(m))).collect();
        let Some(p) = sweep_plan(&all, read, policy, now) else {
            return Reclaimed::default();
        };
        let mut r = p.report();
        self.objects.retain(|path, written| match p.judge(policy, now, path, *written) {
            Verdict::Live => true,
            Verdict::TooYoung => {
                r.objects_too_young += 1;
                true
            }
            Verdict::Doomed => {
                r.objects_deleted += 1;
                false
            }
        });
        self.snaps.retain(|m| match p.judge_snapshot(policy, now, m.sequence, WRITTEN) {
            Verdict::Doomed => {
                r.snapshots_expired += 1;
                false
            }
            _ => true,
        });
        r
    }

    fn puffins(&self) -> Vec<&str> {
        self.objects.keys().map(|k| k.as_str()).filter(|k| k.starts_with("puffin/")).collect()
    }

    fn data(&self) -> usize {
        self.objects.keys().filter(|k| k.starts_with("data/")).count()
    }
}

#[test]
fn reclaims_runs_no_retained_snapshot_names() {
    let mut snaps: Vec<SnapshotMeta> = (1..=5u64)
        .map(|s| meta(s, (1..=s).map(|i| run(&format!("puffin/dsu-{i}.puffin"), i, i)).collect()))
        .collect();
    snaps.push(meta(6, vec![run("puffin/merged-1-5.puffin", 1, 5)]));
    let mut t = Table::new(snaps);
    assert_eq!(t.puffins().len(), 6);

    let got = t.sweep(&policy(1), AFTER_EVERYTHING);
    assert_eq!(got.snapshots_kept, 1);
    assert_eq!(got.snapshots_expired, 5);
    assert_eq!(t.puffins(), vec!["puffin/merged-1-5.puffin"]);
    assert_eq!(t.data(), 1);
}

#[test]
fn keeps_everything_the_retained_window_can_reach() {
    let mut t = Table::new(vec![
        meta(1, vec![run("puffin/a.puffin", 1, 1)]),
        meta(2, vec![run("puffin/a.puffin", 1, 1), run("puffin/b.puffin", 2, 2)]),
        meta(3, vec![run("puffin/merged.puffin", 1, 3)]),
    ]);
    t.sweep(&policy(2), AFTER_EVERYTHING);
    assert_eq!(t.puffins(), vec!["puffin/a.puffin", "puffin/b.puffin", "puffin/merged.puffin"]);
    t.sweep(&policy(1), AFTER_EVERYTHING);
    assert_eq!(t.puffins(), vec!["puffin/merged.puffin"]);
}

#[test]
fn a_legacy_chain_keeps_the_snapshots_it_walks() {
    let mut snaps = Vec::new();
    for sequence in 1..=4u64 {
        let mut m = meta(sequence, Vec::new());
        m.base_sequence = 1;
        m.delta_chain_len = sequence - 1;
        m.format_version = 0;
        m.puffin_path = format!("puffin/dsu-{sequence}.puffin");
        snaps.push(m);
    }
    let mut t = Table::new(snaps);
    let got = t.sweep(&policy(1), AFTER_EVERYTHING);
    assert_eq!(got.snapshots_kept, 4, "snapshot 4 chains back to 1");
    assert_eq!(got.snapshots_expired, 0);
    assert_eq!(t.puffins().len(), 4);
}

#[test]
fn will_not_touch_objects_inside_the_grace_window() {
    let mut t = Table::new(vec![meta(1, vec![run("puffin/live.puffin", 1, 1)])]);
    t.objects.insert("puffin/in-flight.puffin".to_string(), WRITTEN);
    let guarded = RetentionPolicy { keep_snapshots: 1, keep_for_ms: 0, grace_ms: 3_600_000 };
    let got = t.sweep(&guarded, 0);
    assert_eq!(got.objects_deleted, 0);
    assert!(got.objects_too_young >= 1);
    assert!(t.objects.contains_key("puffin/in-flight.puffin"));

    let got = t.sweep(&policy(1), AFTER_EVERYTHING);
    assert_eq!(got.objects_deleted, 1);
}

#[test]
fn a_second_sweep_is_a_no_op() {
    let mut t = Table::new(vec![
        meta(1, vec![run("puffin/a.puffin", 1, 1)]),
        meta(2, vec![run("puffin/b.puffin", 1, 2)]),
    ]);
    let first = t.sweep(&policy(1), AFTER_EVERYTHING);
    assert!(first.objects_deleted > 0);
    let second = t.sweep(&policy(1), AFTER_EVERYTHING);
    assert_eq!(second.objects_deleted, 0);
    assert_eq!(second.snapshots_expired, 0);
    assert_eq!(second.snapshots_kept, 1);
}

#[test]
fn never_expires_the_newest_snapshot() {
    let mut t = Table::new(vec![meta(1, vec![run("puffin/only.puffin", 1, 1)])]);
    let got = t.sweep(&policy(0), AFTER_EVERYTHING);
    assert_eq!(got.snapshots_kept, 1);
    assert_eq!(got.snapshots_expired, 0);
    assert_eq!(t.puffins().len(), 1);
}

#[test]
fn an_empty_catalog_is_not_an_error() {
    let mut t = Table::new(vec![]);
    t.objects.insert("puffin/unknown.puffin".to_string(), WRITTEN);
    assert_eq!(t.sweep(&policy(5), AFTER_EVERYTHING), Reclaimed::default());
    assert_eq!(t.puffins().len(), 1, "nothing is deleted on the word of an empty catalog");
    assert!(sweep_plan(&vec![], vec![], &policy(5), AFTER_EVERYTHING).is_none());
}

#[test]
fn unreadable_metadata_skips_the_sweep() {
    let one = || Some(meta(1, vec![run("puffin/a.puffin", 1, 1)]));
    let now = AFTER_EVERYTHING;
    assert!(sweep_plan(&vec![1, 2], vec![one(), None], &policy(1), now).is_none());
    assert!(sweep_plan(&vec![1, 2], vec![None, one()], &policy(1), now).is_none());
    let p = sweep_plan(&vec![1], vec![one()], &policy(1), now).unwrap();
    assert_eq!(p.judge(&policy(1), now, "puffin/a.puffin", WRITTEN), Verdict::Live);
    assert_eq!(p.judge(&policy(1), now, "puffin/b.puffin", WRITTEN), Verdict::Doomed);
}

#[test]
fn a_sequence_stands_for_its_last_snapshot() {
    // Two snapshots carry sequence 3: the first walks back to 1, the last is a
    // run set, and only the last is followed.
    let chain = |sequence: u64, base: u64| {
        let mut m = meta(sequence, Vec::new());
        m.base_sequence = base;
        m.format_version = 0;
        m
    };
    let metas = vec![chain(1, 1), chain(3, 1), meta(3, vec![run("puffin/c.puffin", 1, 3)])];
    let p = plan(&vec![1, 3, 3], &metas, &policy(1), AFTER_EVERYTHING);
    assert_eq!(p.report().snapshots_kept, 1);
    let metas = vec![chain(1, 1), meta(3, vec![run("puffin/c.puffin", 1, 3)]), chain(3, 1)];
    let p = plan(&vec![1, 3, 3], &metas, &policy(1), AFTER_EVERYTHING);
    assert_eq!(p.report().snapshots_kept, 3);
}

#[test]
fn young_snapshots_stay_whatever_their_number() {
    let mut t = Table::new(vec![
        meta(1, vec![run("puffin/a.puffin", 1, 1)]),
        meta(2, vec![run("puffin/b.puffin", 1, 2)]),
        meta(3, vec![run("puffin/c.puffin", 1, 3)]),
    ]);
    let day = RetentionPolicy { keep_snapshots: 1, keep_for_ms: 86_400_000, grace_ms: 0 };
    assert_eq!(t.sweep(&day, WRITTEN + 5).snapshots_kept, 3);
    let d = RetentionPolicy::default();
    assert_eq!((d.keep_snapshots, d.keep_for_ms, d.grace_ms), (10, 86_400_000, 3_600_000));
}
