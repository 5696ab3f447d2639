//! Applying records and events in order.

use blaze::ingest::log::{partition_of, poll_share};
use blaze::ingest::source::{drawn_event, events_per_tick, next_event, Draws};
use blaze::ingest::SimulatorConfig;
use rand::rngs::StdRng;
use rand::SeedableRng;
use blaze::graph::{EdgeEvent, ScopeList, ScopedForest, StreamPosition, Visibility};
use blaze::ingest::log::after_poll;
use blaze::ingest::log::AfterPoll;
use blaze::ingest::pipeline::ApplyError;
use blaze::ingest::{ConsumerConfig, EdgeBuffer, LogCursor, Pipeline, PipelineStats, Record};

fn event(src: u64, dst: u64) -> EdgeEvent {
    EdgeEvent { src, dst, visibility: Visibility::Global, event_time_ms: 7, props: None }
}

fn record(partition: u32, offset: u64, src: u64, dst: u64) -> Record {
    Record { partition, offset, event: event(src, dst) }
}

/// A log of one event per line, `src dst`.
fn log_file(events: &[EdgeEvent]) -> Vec<u8> {
    let mut out = Vec::new();
    for e in events {
        out.extend_from_slice(format!("{} {}\n", e.src, e.dst).as_bytes());
    }
    out
}

struct Log {
    data: Vec<u8>,
    at: usize,
    cursor: LogCursor,
    follow: bool,
}

impl Log {
    fn open(data: Vec<u8>, follow: bool) -> Log {
        Log { data, at: 0, cursor: LogCursor::new(0), follow }
    }

    fn poll(&mut self, max: usize) -> Result<Vec<Record>, String> {
        let unread = &self.data[self.at..];
        let framed = self.cursor.lines(unread, max);
        let mut events = Vec::new();
        for &(start, end) in framed.lines.iter() {
            let line = std::str::from_utf8(&unread[start..end]).unwrap();
            let offset = self.cursor.next + events.len() as u64 + 1;
            let (src, dst) = line.split_once(' ').ok_or_else(|| format!("offset {offset}: no event"))?;
            events.push(event(src.parse().unwrap(), dst.parse().unwrap()));
        }
        if let Some(e) = framed.bad {
            return Err(e.to_text());
        }
        self.at += framed.consumed;
        Ok(self.cursor.deliver(events))
    }

    fn seek(&mut self, position: &StreamPosition) -> Result<(), String> {
        self.at = 0;
        self.cursor.rewind();
        while self.cursor.behind(position) {
            let rest = &self.data[self.at..];
            let read = match rest.iter().position(|&b| b == b'\n') {
                Some(i) => i + 1,
                None => rest.len(),
            };
            self.cursor.step_over(position, read).map_err(|e| e.to_text())?;
            self.at += read;
        }
        Ok(())
    }

    fn seek_after(&mut self, offset: u64) -> Result<(), String> {
        self.seek(&StreamPosition::single(offset))
    }
}

fn consume(log: &mut Log, pipeline: &mut Pipeline, cfg: ConsumerConfig) -> u64 {
    let mut last = pipeline.stats.last_offset();
    loop {
        let batch = log.poll(cfg.batch).unwrap();
        match after_poll(batch.len(), log.follow) {
            AfterPoll::Apply => last = pipeline.apply_batch(&batch).unwrap(),
            AfterPoll::Wait => panic!("nothing appends to this log"),
            AfterPoll::Stop => return last,
        }
    }
}

fn pipeline(start: u64) -> Pipeline {
    Pipeline::new(ScopedForest::new(), EdgeBuffer::new(), start)
}

#[test]
fn pipeline_applies_and_buffers() {
    let mut pipeline = pipeline(100);
    pipeline.mint(&[event(500, 105)]);

    assert!(pipeline.forest.connected(0, 500, 105));
    assert_eq!(pipeline.stats.last_offset(), 101);
    let seg = pipeline.buffer.seal_active().unwrap();
    assert_eq!(seg.first, StreamPosition::single(101));
    assert_eq!(seg.last, StreamPosition::single(101));
}

#[test]
fn offsets_are_line_numbers_from_one() {
    let mut log = Log::open(log_file(&[event(1, 2), event(3, 4), event(5, 6)]), false);
    let got = log.poll(100).unwrap();
    assert_eq!(got.iter().map(|r| r.offset).collect::<Vec<_>>(), vec![1, 2, 3]);
    assert_eq!(got[2].event.src, 5);
    assert!(log.poll(100).unwrap().is_empty());
}

#[test]
fn a_poll_is_capped_and_resumes_where_it_stopped() {
    let all: Vec<_> = (0..10).map(|i| event(i, i + 1)).collect();
    let mut log = Log::open(log_file(&all), false);
    let first = log.poll(4).unwrap();
    let second = log.poll(4).unwrap();
    let third = log.poll(4).unwrap();
    assert_eq!(first.len(), 4);
    assert_eq!(second.len(), 4);
    assert_eq!(third.len(), 2);
    assert_eq!(first[0].offset, 1);
    assert_eq!(second[0].offset, 5);
    assert_eq!(third[1].offset, 10);
}

#[test]
fn seek_after_replays_the_suffix_with_its_original_offsets() {
    let all: Vec<_> = (0..10).map(|i| event(i, i + 1)).collect();
    let mut log = Log::open(log_file(&all), false);

    log.seek_after(6).unwrap();
    let got = log.poll(100).unwrap();
    assert_eq!(got.iter().map(|r| r.offset).collect::<Vec<_>>(), vec![7, 8, 9, 10]);
    assert_eq!(got[0].event.src, 6);

    log.seek_after(0).unwrap();
    assert_eq!(log.poll(100).unwrap().len(), 10);
}

#[test]
fn seeking_past_the_end_is_an_error() {
    let mut log = Log::open(log_file(&[event(1, 2)]), false);
    let err = log.seek_after(99).unwrap_err();
    assert!(err.contains("the log ends at 1"), "{err}");
}

#[test]
fn a_partially_written_record_is_not_consumed_until_complete() {
    let mut data = log_file(&[event(1, 2)]);
    data.extend_from_slice(b"3 ");
    let mut log = Log::open(data, true);
    let first = log.poll(100).unwrap();
    assert_eq!(first.len(), 1, "read a torn record");
    assert!(log.poll(100).unwrap().is_empty());

    log.data.extend_from_slice(b"4\n");
    let second = log.poll(100).unwrap();
    assert_eq!(second.len(), 1);
    assert_eq!(second[0].offset, 2);
    assert_eq!(second[0].event.dst, 4);
}

#[test]
fn follow_mode_picks_up_appends() {
    let mut log = Log::open(log_file(&[event(1, 2)]), true);
    assert_eq!(log.poll(100).unwrap().len(), 1);
    assert!(log.poll(100).unwrap().is_empty());
    assert_eq!(after_poll(0, log.follow), AfterPoll::Wait, "a followed log is never drained");

    log.data.extend_from_slice(&log_file(&[event(9, 9)]));
    let got = log.poll(100).unwrap();
    assert_eq!(got.len(), 1);
    assert_eq!(got[0].offset, 2);
}

#[test]
fn a_malformed_record_names_its_offset() {
    let mut data = log_file(&[event(1, 2)]);
    data.extend_from_slice(b"{not\n");
    let mut log = Log::open(data, false);
    let err = log.poll(100).unwrap_err();
    assert!(err.starts_with("offset 2:"), "{err}");
}

#[test]
fn a_blank_line_is_an_error() {
    let mut log = Log::open(b"1 2\n\r\n3 4\n".to_vec(), false);
    assert_eq!(log.poll(100).unwrap_err(), "blank line at offset 2");
}

#[test]
fn a_malformed_record_before_a_blank_line_is_named_first() {
    let mut log = Log::open(b"1 2\n{not\n\n5 6\n".to_vec(), false);
    let err = log.poll(100).unwrap_err();
    assert!(err.starts_with("offset 2:"), "{err}");

    // What stands before the blank line is handed out with it.
    let cursor = LogCursor::new(0);
    let framed = cursor.lines(b"1 2\n3 4\n\n5 6\n", 100);
    assert_eq!(framed.lines.len(), 2);
    assert_eq!(framed.bad.unwrap().to_text(), "blank line at offset 3");
    // A batch that ends before the blank line does not see it.
    let framed = cursor.lines(b"1 2\n3 4\n\n5 6\n", 2);
    assert_eq!(framed.lines.len(), 2);
    assert!(framed.bad.is_none());
}

#[test]
fn line_endings_are_not_content() {
    let mut log = Log::open(b"1 2\r\n3 4\r\r\n".to_vec(), false);
    let got = log.poll(100).unwrap();
    assert_eq!((got[0].event.dst, got[1].event.dst), (2, 4));
}

#[test]
fn consume_drains_a_finite_log_into_the_pipeline() {
    let all: Vec<_> = (0..50).map(|i| event(i, i + 1)).collect();
    let mut log = Log::open(log_file(&all), false);
    let mut pipeline = pipeline(0);
    let last = consume(&mut log, &mut pipeline, ConsumerConfig { batch: 7, ..Default::default() });
    assert_eq!(last, 50);
    assert_eq!(pipeline.stats.last_offset(), 50);
    assert!(pipeline.forest.connected(0, 0, 50));
}

#[test]
fn consuming_after_a_watermark_buffers_only_the_suffix() {
    let all: Vec<_> = (0..20).map(|i| event(i, i + 1)).collect();
    let mut log = Log::open(log_file(&all), false);
    let mut pipeline = pipeline(12);
    log.seek_after(12).unwrap();
    consume(&mut log, &mut pipeline, ConsumerConfig::default());

    let seg = pipeline.buffer.seal_active().unwrap();
    assert_eq!(seg.first, StreamPosition::single(13));
    assert_eq!(seg.last, StreamPosition::single(20));
}

#[test]
fn a_redelivered_batch_is_skipped() {
    let batch = [record(0, 1, 1, 2), record(3, 4, 5, 6), record(0, 2, 2, 3)];
    let mut pipeline = pipeline(0);
    assert_eq!(pipeline.apply_batch(&batch).unwrap(), 2);
    assert_eq!(pipeline.apply_batch(&batch).unwrap(), 2);
    assert_eq!(pipeline.buffer.active_rows(), 3);
    assert_eq!(pipeline.stats.position(), StreamPosition::from_entries(&[(0, 2), (3, 4)]));
    assert_eq!(pipeline.forest.stats().events_applied, 3);
}

#[test]
fn a_partition_delivered_out_of_order_is_an_error() {
    let mut pipeline = pipeline(0);
    let err = pipeline.apply_batch(&[record(0, 5, 1, 2), record(1, 2, 3, 4), record(0, 5, 5, 6)]);
    assert_eq!(err, Err(ApplyError::OutOfOrder { offset: 5, previous: 5, partition: 0 }));
    assert_eq!(
        err.unwrap_err().to_text(),
        "log delivered offset 5 after 5 on partition 0: a partition is an ordered log"
    );
    // What came before it stays applied.
    assert_eq!(pipeline.buffer.active_rows(), 2);
    assert_eq!(pipeline.stats.position().get(0), 5);
    assert_eq!(pipeline.stats.last_offset(), 5);
    assert_eq!(pipeline.stats.position().get(1), 2);
}

#[test]
fn a_refused_record_leaves_the_scalar_with_the_position() {
    let mut pipeline = pipeline(0);
    let err = pipeline.apply_batch(&[record(0, 1, 1, 2), record(0, 0, 3, 4)]);
    assert!(err.is_err());
    assert_eq!(pipeline.stats.position().get(0), 1);
    assert_eq!(pipeline.stats.last_offset(), 1);
    // The partition goes on where it stands.
    assert_eq!(pipeline.apply_batch(&[record(0, 1, 1, 2), record(0, 2, 3, 4)]), Ok(2));
    assert_eq!(pipeline.stats.last_offset(), 2);
}

#[test]
fn offset_zero_is_reserved() {
    let mut pipeline = pipeline(0);
    let err = pipeline.apply_batch(&[record(0, 0, 1, 2)]).unwrap_err();
    assert_eq!(err, ApplyError::ReservedOffset);
    assert_eq!(
        err.to_text(),
        "log delivered offset 0, which is reserved for an empty position"
    );
}

#[test]
fn minted_offsets_land_on_partition_zero() {
    let start = StreamPosition::from_entries(&[(0, 7), (2, 5)]);
    let mut pipeline = Pipeline::resuming(ScopedForest::new(), EdgeBuffer::new(), start);
    pipeline.mint(&[]);
    assert_eq!(pipeline.stats.last_offset(), 7);
    pipeline.mint(&[event(1, 2), event(2, 3)]);
    assert_eq!(pipeline.stats.position(), StreamPosition::from_entries(&[(0, 9), (2, 5)]));
    assert_eq!(PipelineStats::default().last_offset(), 0);
}

#[test]
fn a_poll_is_shared_between_partitions() {
    assert_eq!(poll_share(10, 4), 3);
    assert_eq!(poll_share(8, 4), 2);
    assert_eq!(poll_share(0, 4), 0);
    assert_eq!(poll_share(usize::MAX, 1), usize::MAX);
    // Polled in turn, full partitions fill the poll and no more.
    for (max, parts) in [(4usize, 3usize), (1, 3), (10, 4), (3, 3), (0, 2), (7, 1)] {
        let mut taken = 0;
        for still in (1..=parts).rev() {
            taken += poll_share(max - taken, still);
        }
        assert_eq!(taken, max);
    }
    assert_eq!(partition_of("partition-12.ndjson"), Some(12));
    assert_eq!(partition_of("partition-.ndjson"), None);
    assert_eq!(partition_of("partition-1.json"), None);
    assert_eq!(partition_of("partition-4294967296.ndjson"), None);
}

#[test]
fn an_edge_is_what_was_drawn() {
    let cfg = SimulatorConfig { global_pct: 20, multi_scope_pct: 30, ..Default::default() };
    let d = Draws { src: 4, dst: 9, global: 20, first: 3, multi: 30, second: 5, weight: 17 };
    let e = drawn_event(&cfg, d, 42);
    assert_eq!((e.src, e.dst, e.event_time_ms), (4, 9, 42));
    assert_eq!(e.props.as_deref(), Some(r#"{"weight":17}"#));
    assert_eq!(e.visibility, Visibility::Scoped(ScopeList::from_vec(vec![3])));
    let e = drawn_event(&cfg, Draws { multi: 29, ..d }, 42);
    assert_eq!(e.visibility, Visibility::Scoped(ScopeList::from_vec(vec![3, 5])));
    let e = drawn_event(&cfg, Draws { global: 19, ..d }, 42);
    assert_eq!(e.visibility, Visibility::Global);
}

#[test]
fn the_simulator_draws_plausible_edges() {
    let cfg = SimulatorConfig { nodes: 10, scopes: 3, multi_scope_pct: 50, ..Default::default() };
    assert_eq!(events_per_tick(&cfg), 100);
    assert_eq!(events_per_tick(&SimulatorConfig { rate: 3, ..Default::default() }), 1);
    let mut rng = StdRng::seed_from_u64(1);
    let (mut global, mut single, mut double) = (0, 0, 0);
    for _ in 0..500 {
        let e = next_event(&cfg, &mut rng, 42);
        assert!(e.src < 10 && e.dst < 10);
        assert_eq!(e.event_time_ms, 42);
        let props = e.props.unwrap();
        let weight: u32 = props
            .strip_prefix("{\"weight\":")
            .and_then(|p| p.strip_suffix('}'))
            .unwrap()
            .parse()
            .unwrap();
        assert!((1..100).contains(&weight));
        match e.visibility {
            Visibility::Global => global += 1,
            Visibility::Scoped(l) => {
                let scopes = l.to_vec();
                assert!(scopes.iter().all(|s| (1..=3).contains(s)));
                match scopes.len() {
                    1 => single += 1,
                    2 => double += 1,
                    n => panic!("{n} scopes"),
                }
            }
        }
    }
    assert!(global > 20 && single > 50 && double > 50);
}
