//! Committed snapshots and how they describe themselves.

use blaze::graph::{StreamId, StreamPosition};
use blaze::storage::catalog::{probe_answered, probe_listed, probe_start, CatalogError, Probe, FORMAT_RUN_SETS, FORMAT_STREAM_POSITION};
use blaze::storage::{RunMeta, RunSet, SnapshotMeta};

fn snap(seq: u64, watermark: u64) -> SnapshotMeta {
    SnapshotMeta {
        sequence: seq,
        committed_at_ms: 0,
        watermark,
        position: StreamPosition::new(),
        stream: None,
        data_files: vec![],
        puffin_path: format!("puffin/dsu-{seq}.puffin"),
        committer: "test".into(),
        runs: Vec::new(),
        format_version: 0,
        base_sequence: seq,
        delta_chain_len: 0,
    }
}

fn run(level: u8, min_sequence: u64, max_sequence: u64) -> RunMeta {
    RunMeta {
        path: format!("puffin/run-L{level}-{min_sequence}-{max_sequence}.puffin"),
        level,
        min_sequence,
        max_sequence,
        pairs: 1,
        bytes: 1,
    }
}

#[test]
fn a_snapshot_without_runs_falls_back_to_its_chain() {
    let mut meta = snap(7, 100);
    meta.committer = "old-worker".to_string();
    meta.base_sequence = 4;
    meta.delta_chain_len = 3;
    assert!(meta.runs.is_empty());
    assert_eq!(meta.run_set().unwrap(), RunSet::SequencesOnly(4..=7));
}

#[test]
fn a_pre_delta_snapshot_is_its_own_base() {
    let mut meta = snap(3, 10);
    meta.committer = "ancient".to_string();
    meta.base_sequence = 0;
    meta.delta_chain_len = 0;
    assert_eq!(meta.run_set().unwrap(), RunSet::SequencesOnly(3..=3));
}

#[test]
fn runs_resolve_oldest_span_first_however_they_were_listed() {
    let mut meta = snap(9, 900);
    meta.runs = vec![run(0, 9, 9), run(2, 1, 6), run(1, 7, 8)];

    let RunSet::Runs(runs) = meta.run_set().unwrap() else {
        panic!("explicit runs must not fall back to the chain");
    };
    assert_eq!(
        runs.iter().map(|r| r.min_sequence).collect::<Vec<_>>(),
        vec![1, 7, 9]
    );
    assert_eq!(
        runs.iter().map(|r| r.level).collect::<Vec<_>>(),
        vec![2, 1, 0]
    );
    assert!(runs[0].adjacent_to(&runs[1]));
    assert!(runs[1].adjacent_to(&runs[2]));
}

#[test]
fn adjacency_rejects_gaps_and_overlaps() {
    assert!(run(0, 1, 4).adjacent_to(&run(0, 5, 5)));
    assert!(!run(0, 1, 4).adjacent_to(&run(0, 6, 6)));
    assert!(!run(0, 1, 4).adjacent_to(&run(0, 4, 6)));
}

#[test]
fn a_malformed_run_set_is_rejected() {
    let mut meta = snap(9, 900);
    meta.format_version = FORMAT_RUN_SETS;

    meta.runs = vec![run(0, 1, 4), run(0, 6, 9)];
    let err = meta.run_set().unwrap_err().to_text();
    assert!(err.contains("not adjacent"), "gap not caught: {err}");

    meta.runs = vec![run(0, 1, 5), run(0, 4, 9)];
    let err = meta.run_set().unwrap_err().to_text();
    assert!(err.contains("not adjacent"), "overlap not caught: {err}");

    meta.runs = vec![run(0, 1, 4), run(0, 5, 7)];
    let err = meta.run_set().unwrap_err().to_text();
    assert!(
        err.contains("own sequence is in no run"),
        "short set not caught: {err}"
    );

    meta.runs = vec![run(0, 6, 2)];
    let err = meta.run_set().unwrap_err().to_text();
    assert!(err.contains("spans backwards"), "got: {err}");

    meta.runs = vec![run(1, 1, 4), run(0, 5, 9)];
    assert!(meta.run_set().is_ok());
}

#[test]
fn claiming_the_run_set_format_without_runs_is_corruption() {
    let mut meta = snap(3, 300);
    meta.format_version = FORMAT_RUN_SETS;
    let err = meta.run_set().unwrap_err().to_text();
    assert!(err.contains("lists no runs"), "got: {err}");

    meta.format_version = 0;
    assert_eq!(meta.run_set().unwrap(), RunSet::SequencesOnly(3..=3));
}



#[test]
fn a_legacy_scalar_reads_as_partition_zero() {
    let mut meta = snap(7, 4242);
    meta.committer = "old-binary".to_string();
    meta.base_sequence = 0;
    meta.delta_chain_len = 0;
    let snap = meta;
    assert!(snap.position.is_empty(), "nothing to deserialize into it");
    assert_eq!(snap.stream, None);

    let position = snap.stream_position();
    assert_eq!(position.get(0), 4242);
    assert_eq!(position.len(), 1);
    assert!(position.dominates(&StreamPosition::single(4242)));
}

#[test]
fn a_single_partition_snapshot_still_writes_the_scalar() {
    let mut snap = snap(3, 0);
    snap.set_stream_position(StreamPosition::single(900));
    assert_eq!(snap.watermark, 900);
    assert_eq!(snap.format_version, 0, "no format bump for one partition");

    let round = snap;
    assert_eq!(round.stream_position(), StreamPosition::single(900));
}

#[test]
fn a_multi_partition_snapshot_refuses_to_invent_a_scalar() {
    let mut snap = snap(4, 0);
    snap.set_stream_position(StreamPosition::from_entries(&[(0, 10), (1, 20)]));
    assert_eq!(snap.watermark, 0);
    assert_eq!(snap.format_version, FORMAT_STREAM_POSITION);

    let round = snap;
    assert_eq!(round.stream_position().get(1), 20);
    assert_eq!(round.stream_position().len(), 2);
}

#[test]
fn a_position_that_goes_backwards_is_rejected() {
    let mut first = snap(1, 0);
    first.set_stream_position(StreamPosition::from_entries(&[(0, 50), (1, 50)]));

    let mut forward = snap(2, 0);
    forward.set_stream_position(StreamPosition::from_entries(&[(0, 60), (1, 50)]));
    forward.advances_from(&first).unwrap();

    let mut sideways = snap(2, 0);
    sideways.set_stream_position(StreamPosition::from_entries(&[(0, 60), (1, 40)]));
    let err = sideways.advances_from(&first).unwrap_err().to_text();
    assert!(err.contains("backwards"), "{err}");

    let mut grown = snap(2, 0);
    grown.set_stream_position(StreamPosition::from_entries(&[(0, 50), (1, 50), (2, 5)]));
    grown.advances_from(&first).unwrap();
}

#[test]
fn a_legacy_predecessor_still_constrains_its_successor() {
    let old = snap(1, 500); // scalar only
    let mut ahead = snap(2, 0);
    ahead.set_stream_position(StreamPosition::single(600));
    ahead.advances_from(&old).unwrap();

    let mut behind = snap(2, 0);
    behind.set_stream_position(StreamPosition::single(400));
    assert!(behind.advances_from(&old).is_err());
}

#[test]
fn a_stream_identity_change_is_rejected() {
    let mut a = snap(1, 0);
    a.set_stream_position(StreamPosition::single(10));
    a.stream = Some(StreamId::new("kafka", "edges"));

    let mut b = snap(2, 0);
    b.set_stream_position(StreamPosition::single(20));
    b.stream = Some(StreamId::new("kafka", "edges-v2"));
    let err = b.advances_from(&a).unwrap_err().to_text();
    assert!(err.contains("meaningless in the other"), "{err}");

    let mut c = snap(2, 0);
    c.set_stream_position(StreamPosition::single(20));
    c.stream = Some(StreamId::new("kafka", "edges").with_group("blaze-b"));
    c.advances_from(&a).unwrap();

    let legacy = snap(1, 10);
    c.advances_from(&legacy).unwrap();
}

#[test]
fn a_backwards_position_names_both() {
    let mut first = snap(1, 0);
    first.set_stream_position(StreamPosition::single(50));
    let mut back = snap(2, 0);
    back.set_stream_position(StreamPosition::single(49));
    match back.advances_from(&first) {
        Err(CatalogError::PositionBackwards { sequence, after, before }) => {
            assert_eq!(sequence, 2);
            assert_eq!(after, StreamPosition::single(49));
            assert_eq!(before, StreamPosition::single(50));
        }
        other => panic!("{other:?}"),
    }
}

#[test]
fn the_latest_snapshot_is_found_by_probing_forward() {
    assert!(matches!(probe_start(0), Probe::List));
    assert!(matches!(probe_start(7), Probe::Exists(8)));
    let names = vec![
        "snap-000000000002.json".to_string(),
        "notes.txt".to_string(),
        "snap-000000000011.json".to_string(),
    ];
    assert!(matches!(probe_listed(&names), Probe::Exists(12)));
    assert!(matches!(probe_listed(&vec![]), Probe::Empty));
    assert!(matches!(probe_answered(12, true), Probe::Exists(13)));
    assert!(matches!(probe_answered(12, false), Probe::Read(11)));
}
