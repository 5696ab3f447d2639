//! The single-writer ingest pipeline.
//!
//! Each edge is applied to the in-memory forest and appended to the edge
//! buffer, under an offset. Offsets arrive one of two ways:
//!
//! - [`apply_batch`](Pipeline::apply_batch) takes offsets **assigned by a log**,
//!   so a committed position means the same thing on every worker.
//! - [`mint`](Pipeline::mint) **mints** offsets from a local counter for events
//!   that have no log position. That numbering is private to one worker.

use vstd::prelude::*;

use crate::graph::history::{
    an_edge_connects_its_ends, order_does_not_matter, root_after, visible,
};
use crate::graph::scoped::{counted, ScopedForest};
use crate::graph::stream::{
    advanced, all_advanced, applied, entries_give_the_highest_offsets, larger, PartitionId,
    StreamPosition,
};
use crate::graph::types::{
    an_edge_is_seen_by_its_audience, EdgeEvent, NodeId, ScopeId, Visibility,
};
use crate::text::{decimal, decimal_text};

use super::buffer::{an_event_is_buffered_as_it_is, appended, BufferView, EdgeBuffer};
use super::log::Record;

verus! {

/// Why a batch was refused.
#[derive(Debug, Clone, Copy, PartialEq, Eq, Structural)]
pub enum ApplyError {
    /// Zero is reserved: a position uses it for "nothing applied".
    ReservedOffset,
    /// A partition is an ordered log; going backwards is a bug in the source.
    OutOfOrder { offset: u64, previous: u64, partition: PartitionId },
}

/// The words of an [`ApplyError`].
pub open spec fn apply_error_text(e: ApplyError) -> Seq<char> {
    match e {
        ApplyError::ReservedOffset =>
            "log delivered offset 0, which is reserved for an empty position"@,
        ApplyError::OutOfOrder { offset, previous, partition } => "log delivered offset "@
            + decimal(offset as nat) + " after "@ + decimal(previous as nat) + " on partition "@
            + decimal(partition as nat) + ": a partition is an ordered log"@,
    }
}

impl ApplyError {
    pub fn to_text(&self) -> (s: String)
        ensures
            s@ == apply_error_text(*self),
    {
        match self {
            ApplyError::ReservedOffset => String::from_str(
                "log delivered offset 0, which is reserved for an empty position",
            ),
            ApplyError::OutOfOrder { offset, previous, partition } => {
                let mut s = String::from_str("log delivered offset ");
                s.append(decimal_text(*offset).as_str());
                s.append(" after ");
                s.append(decimal_text(*previous).as_str());
                s.append(" on partition ");
                s.append(decimal_text(*partition as u64).as_str());
                s.append(": a partition is an ordered log");
                s
            },
        }
    }
}

/// The places of `records` in their logs.
pub open spec fn places(records: Seq<Record>) -> Seq<(PartitionId, u64)> {
    records.map_values(|r: Record| (r.partition, r.offset))
}

/// The highest offset of each partition in `records`.
pub open spec fn seen(records: Seq<Record>) -> Map<PartitionId, u64> {
    all_advanced(Map::empty(), places(records))
}

/// What is wrong with `r` coming after `before` in one batch.
pub open spec fn fault(before: Seq<Record>, r: Record) -> Option<ApplyError> {
    let previous = applied(seen(before), r.partition);
    if r.offset == 0 {
        Some(ApplyError::ReservedOffset)
    } else if r.offset <= previous {
        Some(ApplyError::OutOfOrder { offset: r.offset, previous, partition: r.partition })
    } else {
        None
    }
}

/// Whether every record of a batch is one-based and after those of its
/// partition that come before it.
pub open spec fn ordered(records: Seq<Record>) -> bool {
    forall|i: int| 0 <= i < records.len() ==> fault(records.take(i), #[trigger] records[i]) is None
}

/// The records that a worker at `position` has not applied yet.
pub open spec fn fresh(position: Map<PartitionId, u64>, records: Seq<Record>) -> Seq<Record>
    decreases records.len(),
{
    if records.len() == 0 {
        Seq::empty()
    } else {
        let before = fresh(position, records.drop_last());
        let r = records.last();
        if r.offset <= applied(position, r.partition) {
            before
        } else {
            before.push(r)
        }
    }
}

/// Where a worker at `position` stands after `records`.
pub open spec fn position_after(
    position: Map<PartitionId, u64>,
    records: Seq<Record>,
) -> Map<PartitionId, u64> {
    all_advanced(position, places(fresh(position, records)))
}

/// The edges of `records`.
pub open spec fn events_of(records: Seq<Record>) -> Seq<EdgeEvent> {
    records.map_values(|r: Record| r.event)
}

/// A buffer after `records` were appended to it.
pub open spec fn buffered(b: BufferView, records: Seq<Record>) -> BufferView
    decreases records.len(),
{
    if records.len() == 0 {
        b
    } else {
        let r = records.last();
        appended(buffered(b, records.drop_last()), r.partition, r.offset, r.event)
    }
}

/// Whether `after` is `before` with `events` applied in order.
pub open spec fn grown(
    before: &ScopedForest,
    after: &ScopedForest,
    events: Seq<EdgeEvent>,
) -> bool {
    &&& after.wf()
    &&& before.indexed() ==> after.indexed()
    &&& before.consistent() ==> after.consistent()
    &&& before.consistent() ==> forall|h: Seq<EdgeEvent>|
        before.follows(h) ==> #[trigger] after.follows(h + events)
    &&& after.event_count() == counted(before.event_count(), events.len())
    &&& after.base_is(before)
}

proof fn advancing_one_more(
    m: Map<PartitionId, u64>,
    records: Seq<Record>,
    r: Record,
)
    ensures
        all_advanced(m, places(records.push(r))) == advanced(
            all_advanced(m, places(records)),
            r.partition,
            r.offset,
        ),
{
    assert(places(records.push(r)) =~= places(records).push((r.partition, r.offset)));
    assert(places(records).push((r.partition, r.offset)).drop_last() =~= places(records));
}

/// In an ordered batch, a worker stands at the larger of where it stood and
/// what the batch has shown of a partition.
proof fn standing(position: Map<PartitionId, u64>, records: Seq<Record>, p: PartitionId)
    ensures
        applied(position_after(position, records), p) == larger(
            applied(position, p),
            applied(seen(records), p),
        ),
    decreases records.len(),
{
    if records.len() == 0 {
        assert(places(fresh(position, records)) =~= Seq::empty());
        assert(places(records) =~= Seq::empty());
    } else {
        let front = records.drop_last();
        let r = records.last();
        standing(position, front, p);
        assert(records =~= front.push(r));
        advancing_one_more(Map::empty(), front, r);
        if r.offset > applied(position, r.partition) {
            advancing_one_more(position, fresh(position, front), r);
        }
    }
}

/// **At-least-once delivery is absorbed**: a batch that is delivered again to
/// the worker that applied it holds nothing fresh, so no edge is buffered
/// twice.
pub proof fn a_redelivered_batch_is_skipped(
    position: Map<PartitionId, u64>,
    records: Seq<Record>,
    n: int,
)
    requires
        0 <= n <= records.len(),
    ensures
        fresh(position_after(position, records), records.take(n)) == Seq::<Record>::empty(),
        position_after(position_after(position, records), records.take(n)) == position_after(
            position,
            records,
        ),
    decreases n,
{
    let after = position_after(position, records);
    if n > 0 {
        a_redelivered_batch_is_skipped(position, records, n - 1);
        let r = records[n - 1];
        assert(records.take(n).drop_last() =~= records.take(n - 1));
        standing(position, records, r.partition);
        seen_covers(records, n - 1);
    }
    assert(places(Seq::<Record>::empty()) =~= Seq::empty());
}

proof fn seen_covers(records: Seq<Record>, i: int)
    requires
        0 <= i < records.len(),
    ensures
        records[i].offset <= applied(seen(records), records[i].partition),
    decreases records.len(),
{
    let front = records.drop_last();
    assert(records =~= front.push(records.last()));
    advancing_one_more(Map::empty(), front, records.last());
    if i < front.len() {
        seen_covers(front, i);
    }
}

/// **Batch boundaries do not matter**: two batches that are in order together
/// yield the same fresh records one after the other.
pub proof fn batches_join(position: Map<PartitionId, u64>, a: Seq<Record>, b: Seq<Record>)
    requires
        ordered(a + b),
    ensures
        fresh(position, a + b) == fresh(position, a) + fresh(position_after(position, a), b),
    decreases b.len(),
{
    if b.len() == 0 {
        assert(a + b =~= a);
        assert(fresh(position, a) + fresh(position_after(position, a), b) =~= fresh(position, a));
    } else {
        let front = b.drop_last();
        let r = b.last();
        let all = a + b;
        assert(all.drop_last() =~= a + front);
        assert forall|i: int| 0 <= i < (a + front).len() implies fault(
            (a + front).take(i),
            #[trigger] (a + front)[i],
        ) is None by {
            assert(all.take(i) =~= (a + front).take(i));
            assert(all[i] == (a + front)[i]);
        }
        batches_join(position, a, front);
        let k = all.len() - 1;
        assert(fault(all.take(k), all[k]) is None);
        assert(all.take(k) =~= a + front);
        standing(position, a, r.partition);
        seen_grows(a, front, r.partition);
        let after = position_after(position, a);
        assert(r.offset <= applied(after, r.partition) <==> r.offset <= applied(
            position,
            r.partition,
        ));
        assert(fresh(position, a) + fresh(after, b) =~= if r.offset <= applied(
            position,
            r.partition,
        ) {
            fresh(position, a) + fresh(after, front)
        } else {
            (fresh(position, a) + fresh(after, front)).push(r)
        });
    }
}

proof fn fresh_records_join(position: Map<PartitionId, u64>, a: Seq<Record>, b: Seq<Record>)
    ensures
        fresh(position, a + b) == fresh(position, a) + fresh(position, b),
    decreases b.len(),
{
    if b.len() == 0 {
        assert(a + b =~= a);
        assert(fresh(position, a) + fresh(position, b) =~= fresh(position, a));
    } else {
        assert((a + b).drop_last() =~= a + b.drop_last());
        fresh_records_join(position, a, b.drop_last());
        assert(fresh(position, a + b) =~= fresh(position, a) + fresh(position, b));
    }
}

/// **Recovery replays exactly what was lost**: a worker that stands where the
/// first `n` records of a log left it, and is handed the log from the start,
/// applies precisely the records that are missing from them.
pub proof fn replay_applies_exactly_the_rest(
    start: Map<PartitionId, u64>,
    log: Seq<Record>,
    n: int,
)
    requires
        ordered(log),
        0 <= n <= log.len(),
    ensures
        fresh(start, log.take(n)) + fresh(position_after(start, log.take(n)), log) == fresh(
            start,
            log,
        ),
{
    let a = log.take(n);
    let b = log.skip(n);
    let there = position_after(start, a);
    assert(a + b =~= log);
    batches_join(start, a, b);
    fresh_records_join(there, a, b);
    assert(a.take(n) =~= a);
    a_redelivered_batch_is_skipped(start, a, n);
    assert(fresh(there, a) + fresh(there, b) =~= fresh(there, b));
}

proof fn fresh_of_a_part(start: Map<PartitionId, u64>, log: Seq<Record>, n: int)
    requires
        0 <= n <= log.len(),
    ensures
        forall|e: EdgeEvent| #[trigger]
            events_of(fresh(start, log.take(n))).contains(e) ==> events_of(
                fresh(start, log),
            ).contains(e),
{
    let part = fresh(start, log.take(n));
    assert(log.take(n) + log.skip(n) =~= log);
    fresh_records_join(start, log.take(n), log.skip(n));
    assert forall|e: EdgeEvent| #[trigger] events_of(part).contains(e) implies events_of(
        fresh(start, log),
    ).contains(e) by {
        let i = events_of(part).index_of(e);
        assert(events_of(fresh(start, log))[i] == e);
    }
}

proof fn seen_twice_is_seen(durable: Seq<EdgeEvent>, held: Seq<EdgeEvent>, rest: Seq<EdgeEvent>)
    requires
        forall|e: EdgeEvent| durable.contains(e) ==> #[trigger] held.contains(e),
        forall|e: EdgeEvent| held.contains(e) ==> #[trigger] (durable + rest).contains(e),
    ensures
        forall|e: EdgeEvent| #[trigger]
            (held + rest).contains(e) <==> (durable + rest).contains(e),
{
    let twice = held + rest;
    let whole = durable + rest;
    assert forall|e: EdgeEvent| #[trigger] twice.contains(e) <==> whole.contains(e) by {
        if twice.contains(e) {
            let i = twice.index_of(e);
            if i < held.len() {
                assert(held[i] == e);
                assert(held.contains(e));
            } else {
                assert(whole[durable.len() + (i - held.len())] == e);
            }
        }
        if whole.contains(e) {
            let i = whole.index_of(e);
            if i < durable.len() {
                assert(durable[i] == e);
                assert(durable.contains(e));
                assert(held.contains(e));
                let j = held.index_of(e);
                assert(twice[j] == e);
            } else {
                assert(twice[held.len() + (i - durable.len())] == e);
            }
        }
    }
}

/// **A restart in mid-stream changes no answer**: a worker that was restored to
/// a state committed at the position of the first `n` records of a log, and is
/// handed the log from the start, answers as if it had applied the whole log
/// without stopping. The state may be ahead of its position, since ingest goes
/// on while a commit is written: what it then sees twice changes nothing.
#[verifier::spinoff_prover]
#[verifier::rlimit(50)]
pub proof fn a_restart_changes_no_answer(
    start: Map<PartitionId, u64>,
    log: Seq<Record>,
    n: int,
    m: int,
    committed: &ScopedForest,
    restored: &ScopedForest,
    recovered: &ScopedForest,
)
    requires
        ordered(log),
        0 <= n <= m <= log.len(),
        committed.follows(events_of(fresh(start, log.take(m)))),
        restored.consistent(),
        forall|s: ScopeId, x: NodeId| #[trigger]
            restored.root_in(s, x) == committed.root_in(s, x),
        grown(
            restored,
            recovered,
            events_of(fresh(position_after(start, log.take(n)), log)),
        ),
    ensures
        recovered.follows(events_of(fresh(start, log))),
{
    let durable = events_of(fresh(start, log.take(n)));
    let held = events_of(fresh(start, log.take(m)));
    let rest = fresh(position_after(start, log.take(n)), log);
    let whole = events_of(fresh(start, log));
    replay_applies_exactly_the_rest(start, log, n);
    assert(durable + events_of(rest) =~= whole);
    assert(restored.follows(held));
    fresh_of_a_part(start, log, m);
    assert(log.take(m).take(n) =~= log.take(n));
    fresh_of_a_part(start, log.take(m), n);
    let twice = held + events_of(rest);
    seen_twice_is_seen(durable, held, events_of(rest));
    assert(recovered.follows(twice));
    assert forall|s: ScopeId, x: NodeId| #[trigger]
        recovered.root_in(s, x) == root_after(whole, s, x) by {
        order_does_not_matter(twice, whole, s, x);
    }
}

proof fn seen_grows(a: Seq<Record>, b: Seq<Record>, p: PartitionId)
    ensures
        applied(seen(a), p) <= applied(seen(a + b), p),
    decreases b.len(),
{
    if b.len() == 0 {
        assert(a + b =~= a);
    } else {
        seen_grows(a, b.drop_last(), p);
        assert(a + b =~= (a + b.drop_last()).push(b.last()));
        advancing_one_more(Map::empty(), a + b.drop_last(), b.last());
    }
}

/// Where the worker stands in the stream.
#[derive(Debug)]
pub struct PipelineStats {
    /// Highest offset applied on partition 0.
    pub last_offset: u64,
    /// Highest offset applied per partition. It starts at the recovery
    /// position, so it is no events-since-boot count.
    pub position: StreamPosition,
}

impl Default for PipelineStats {
    fn default() -> (s: PipelineStats)
        ensures
            s.last_offset == 0,
            s.position@ == Map::<PartitionId, u64>::empty(),
    {
        PipelineStats { last_offset: 0, position: StreamPosition::new() }
    }
}

impl PipelineStats {
    /// The scalar says where the worker stands on partition 0.
    pub open spec fn in_step(&self) -> bool {
        self.last_offset == applied(self.position@, 0)
    }

    /// Position on partition 0: the scalar a single-partition stream has.
    /// Prefer [`position`](Self::position) on any other.
    pub fn last_offset(&self) -> (offset: u64)
        ensures
            offset == self.last_offset,
    {
        self.last_offset
    }

    /// Where the worker stands in every partition it has seen.
    pub fn position(&self) -> (p: StreamPosition)
        ensures
            p@ == self.position@,
    {
        self.position.clone()
    }
}

pub struct Pipeline {
    pub forest: ScopedForest,
    pub buffer: EdgeBuffer,
    pub stats: PipelineStats,
}

/// The records that minting gives `events` after offset `last`.
pub open spec fn minted(last: u64, events: Seq<EdgeEvent>) -> Seq<Record> {
    super::log::numbered(0, last, events)
}

/// Whether `after` is `before` with the fresh ones of `records` applied and
/// buffered, in order.
#[verifier::opaque]
pub open spec fn took(before: &Pipeline, after: &Pipeline, records: Seq<Record>) -> bool {
    let new = fresh(before.stats.position@, records);
    &&& grown(&before.forest, &after.forest, events_of(new))
    &&& after.buffer@ == buffered(before.buffer@, new)
    &&& after.stats.position@ == position_after(before.stats.position@, records)
}

/// Whether `after` is `before` with `record` applied, unless `before` stands at
/// or after it.
#[verifier::opaque]
spec fn offered(before: &Pipeline, after: &Pipeline, record: Record) -> bool {
    if record.offset > applied(before.stats.position@, record.partition) {
        &&& grown(&before.forest, &after.forest, seq![record.event])
        &&& after.buffer@ == appended(
            before.buffer@,
            record.partition,
            record.offset,
            record.event,
        )
        &&& after.stats.position@ == advanced(
            before.stats.position@,
            record.partition,
            record.offset,
        )
    } else {
        after == before
    }
}

proof fn took_nothing(p: &Pipeline)
    requires
        p.forest.wf(),
    ensures
        took(p, p, Seq::empty()),
{
    reveal(took);
    grown_by_nothing(&p.forest);
    assert(events_of(Seq::empty()) =~= Seq::empty());
    assert(places(Seq::empty()) =~= Seq::empty());
}

proof fn took_is_of_the_position(
    start: &Pipeline,
    a: &Pipeline,
    b: &Pipeline,
    records: Seq<Record>,
)
    requires
        took(start, a, records),
        a.forest == b.forest,
        a.buffer == b.buffer,
        a.stats.position == b.stats.position,
    ensures
        took(start, b, records),
{
    reveal(took);
}

proof fn took_one_more(
    start: &Pipeline,
    mid: &Pipeline,
    end: &Pipeline,
    records: Seq<Record>,
    r: Record,
)
    requires
        took(start, mid, records),
        offered(mid, end, r),
        fault(records, r) is None,
    ensures
        took(start, end, records.push(r)),
{
    reveal(took);
    reveal(offered);
    let was = start.stats.position@;
    let new = fresh(was, records);
    assert(records.push(r).drop_last() =~= records);
    standing(was, records, r.partition);
    if r.offset > applied(was, r.partition) {
        advancing_one_more(was, new, r);
        assert(new.push(r).drop_last() =~= new);
        grown_further(&start.forest, &mid.forest, &end.forest, events_of(new), seq![r.event]);
        assert(events_of(new.push(r)) =~= events_of(new) + seq![r.event]);
    }
}

impl Pipeline {
    /// Starts the pipeline resuming after `start_offset` on partition 0.
    pub fn new(forest: ScopedForest, buffer: EdgeBuffer, start_offset: u64) -> (p: Pipeline)
        ensures
            p.forest == forest,
            p.buffer == buffer,
            p.stats.last_offset == start_offset,
            p.stats.position@ == map![0u32 => start_offset],
            p.stats.in_step(),
    {
        let start = StreamPosition::single(start_offset);
        assert(start@[0] == start_offset);
        assert(start@ =~= map![0u32 => start_offset]);
        Pipeline::resuming(forest, buffer, start)
    }

    /// Starts the pipeline resuming from a committed position: every partition
    /// picks up where the last snapshot left it.
    pub fn resuming(forest: ScopedForest, buffer: EdgeBuffer, start: StreamPosition) -> (p:
        Pipeline)
        ensures
            p.forest == forest,
            p.buffer == buffer,
            p.stats.position@ == start@,
            p.stats.in_step(),
    {
        let last_offset: u64 = start.get(0);
        Pipeline { forest, buffer, stats: PipelineStats { last_offset, position: start } }
    }

    /// Applies one edge and buffers it at its place.
    fn take(&mut self, partition: PartitionId, offset: u64, event: &EdgeEvent)
        requires
            old(self).forest.wf(),
        ensures
            grown(&old(self).forest, &final(self).forest, seq![*event]),
            final(self).buffer@ == appended(old(self).buffer@, partition, offset, *event),
            final(self).stats == old(self).stats,
    {
        let ghost before = self.forest;
        self.forest.apply(event);
        self.buffer.append(partition, offset, event);
        proof {
            if before.consistent() {
                assert forall|h: Seq<EdgeEvent>| before.follows(h) implies #[trigger]
                    self.forest.follows(h + seq![*event]) by {
                    assert(h + seq![*event] =~= h.push(*event));
                }
            }
        }
    }

    /// Applies `record` unless the worker stands at or after it.
    fn offer(&mut self, record: &Record)
        requires
            old(self).forest.wf(),
        ensures
            final(self).forest.wf(),
            final(self).stats.last_offset == old(self).stats.last_offset,
            offered(old(self), final(self), *record),
    {
        proof {
            reveal(offered);
        }
        if record.offset > self.stats.position.get(record.partition) {
            self.take(record.partition, record.offset, &record.event);
            self.stats.position.advance(record.partition, record.offset);
        }
    }

    /// Applies a batch of log records under the offsets the log gave them, and
    /// returns the new position on partition 0.
    ///
    /// Records at or below the current position are **skipped, not re-applied**:
    /// a log delivers at least once, and a second copy in the buffer would be a
    /// duplicate row. Gaps are fine. Going backwards within one partition is
    /// not; what came before the offending record stays applied, and the position
    /// says so. Records of different partitions may interleave freely.
    pub fn apply_batch(&mut self, records: &[Record]) -> (r: Result<u64, ApplyError>)
        requires
            old(self).forest.wf(),
        ensures
            final(self).forest.wf(),
            final(self).stats.in_step(),
            r is Ok <==> ordered(records@),
            match r {
                Ok(zero) => {
                    &&& took(old(self), final(self), records@)
                    &&& zero == final(self).stats.last_offset
                },
                Err(e) => {
                    let k = faulty_at(records@);
                    &&& took(old(self), final(self), records@.take(k))
                    &&& fault(records@.take(k), records@[k]) == Some(e)
                },
            },
    {
        let ghost start = *self;
        let mut seen_here = StreamPosition::new();
        let mut i: usize = 0;
        proof {
            assert(records@.take(0) =~= Seq::empty());
            assert(places(Seq::<Record>::empty()) =~= Seq::empty());
            took_nothing(self);
            reveal(sound_upto);
        }
        while i < records.len()
            invariant
                i <= records@.len(),
                start == *old(self),
                seen_here@ == seen(records@.take(i as int)),
                sound_upto(records@, i as int),
                self.forest.wf(),
                took(&start, self, records@.take(i as int)),
            decreases records@.len() - i,
        {
            let record = &records[i];
            let ghost before = records@.take(i as int);
            if let Some(e) = find_fault(&seen_here, record, Ghost(before)) {
                let ghost done = *self;
                self.stats.last_offset = self.stats.position.get(0);
                proof {
                    faulty_at_is(records@, i as int);
                    took_is_of_the_position(&start, &done, self, before);
                }
                return Err(e);
            }
            seen_here.advance(record.partition, record.offset);
            let ghost mid = *self;
            self.offer(record);
            proof {
                assert(records@.take(i + 1) =~= before.push(*record));
                advancing_one_more(Map::empty(), before, *record);
                took_one_more(&start, &mid, self, before, *record);
                sound_further(records@, i as int);
            }
            i += 1;
        }
        proof {
            assert(records@.take(i as int) =~= records@);
            reveal(sound_upto);
        }
        let zero: u64 = self.stats.position.get(0);
        let ghost done = *self;
        self.stats.last_offset = zero;
        proof {
            took_is_of_the_position(&start, &done, self, records@);
        }
        Ok(zero)
    }

    /// Applies events that have no log position, minting offsets after the last
    /// one. Minted offsets always land on partition 0: there is no log to say
    /// otherwise, and this numbering is private to one worker anyway.
    pub fn mint(&mut self, events: &[EdgeEvent])
        requires
            old(self).forest.wf(),
            old(self).stats.last_offset + events@.len() <= u64::MAX,
        ensures
            grown(&old(self).forest, &final(self).forest, events@),
            final(self).buffer@ == buffered(
                old(self).buffer@,
                minted(old(self).stats.last_offset, events@),
            ),
            final(self).stats.last_offset == old(self).stats.last_offset + events@.len(),
            old(self).stats.in_step() ==> final(self).stats.in_step(),
            final(self).stats.position@ == (if events@.len() == 0 {
                old(self).stats.position@
            } else {
                advanced(old(self).stats.position@, 0, final(self).stats.last_offset)
            }),
    {
        let ghost forest0 = self.forest;
        let ghost buffer0 = self.buffer@;
        let ghost last0 = self.stats.last_offset;
        let mut i: usize = 0;
        proof {
            assert(events@.take(0) =~= Seq::empty());
            assert(minted(last0, events@).take(0) =~= Seq::empty());
            grown_by_nothing(&forest0);
        }
        while i < events.len()
            invariant
                i <= events@.len(),
                last0 + events@.len() <= u64::MAX,
                self.stats.last_offset == last0 + i,
                self.stats.position == old(self).stats.position,
                grown(&forest0, &self.forest, events@.take(i as int)),
                self.buffer@ == buffered(buffer0, minted(last0, events@).take(i as int)),
                forest0 == old(self).forest,
                buffer0 == old(self).buffer@,
                last0 == old(self).stats.last_offset,
            decreases events@.len() - i,
        {
            let offset: u64 = self.stats.last_offset + 1;
            self.stats.last_offset = offset;
            let ghost mid = self.forest;
            self.take(0, offset, &events[i]);
            proof {
                let all = minted(last0, events@);
                assert(all.take(i + 1).drop_last() =~= all.take(i as int));
                assert(events@.take(i + 1) =~= events@.take(i as int) + seq![events@[i as int]]);
                grown_further(
                    &forest0,
                    &mid,
                    &self.forest,
                    events@.take(i as int),
                    seq![events@[i as int]],
                );
            }
            i += 1;
        }
        assert(events@.take(i as int) =~= events@);
        assert(minted(last0, events@).take(i as int) =~= minted(last0, events@));
        if events.len() > 0 {
            self.stats.position.advance(0, self.stats.last_offset);
        }
    }
}

/// The index of the first record that is out of place.
pub open spec fn faulty_at(records: Seq<Record>) -> int
    decreases records.len(),
{
    if records.len() == 0 {
        0
    } else {
        let k = faulty_at(records.drop_last());
        if k < records.len() - 1 {
            k
        } else if fault(records.drop_last(), records.last()) is None {
            records.len() as int
        } else {
            records.len() - 1
        }
    }
}

/// The first `n` records are in place.
#[verifier::opaque]
spec fn sound_upto(records: Seq<Record>, n: int) -> bool {
    forall|j: int| 0 <= j < n ==> fault(records.take(j), #[trigger] records[j]) is None
}

#[verifier::spinoff_prover]
proof fn sound_further(records: Seq<Record>, n: int)
    requires
        0 <= n < records.len(),
        sound_upto(records, n),
        fault(records.take(n), records[n]) is None,
    ensures
        sound_upto(records, n + 1),
{
    reveal(sound_upto);
    assert forall|j: int| 0 <= j < n + 1 implies fault(
        records.take(j),
        #[trigger] records[j],
    ) is None by {
        if j == n {
        }
    }
}

/// What is wrong with `r` coming after `before`, of which `seen_here` is what
/// was seen.
fn find_fault(seen_here: &StreamPosition, r: &Record, Ghost(before): Ghost<Seq<Record>>) -> (e:
    Option<ApplyError>)
    requires
        seen_here@ == seen(before),
    ensures
        e == fault(before, *r),
{
    let previous: u64 = seen_here.get(r.partition);
    if r.offset == 0 {
        Some(ApplyError::ReservedOffset)
    } else if r.offset <= previous {
        Some(ApplyError::OutOfOrder { offset: r.offset, previous, partition: r.partition })
    } else {
        None
    }
}

proof fn faulty_at_is(records: Seq<Record>, i: int)
    requires
        0 <= i < records.len(),
        fault(records.take(i), records[i]) is Some,
        sound_upto(records, i),
    ensures
        faulty_at(records) == i,
        !ordered(records),
    decreases records.len(),
{
    reveal(sound_upto);
    let front = records.drop_last();
    if i == records.len() - 1 {
        faultless(front, records);
        assert(records.take(i) =~= front);
    } else {
        assert(front.take(i) =~= records.take(i));
        assert forall|j: int|
            0 <= j < i
        implies fault(front.take(j), #[trigger] front[j]) is None by {
            assert(front.take(j) =~= records.take(j));
            assert(front[j] == records[j]);
        }
        faulty_at_is(front, i);
    }
}

proof fn faultless(a: Seq<Record>, records: Seq<Record>)
    requires
        a.len() <= records.len(),
        a == records.take(a.len() as int),
        forall|j: int| 0 <= j < a.len() ==> fault(records.take(j), #[trigger] records[j]) is None,
    ensures
        faulty_at(a) == a.len(),
    decreases a.len(),
{
    if a.len() > 0 {
        let front = a.drop_last();
        assert(front =~= records.take(front.len() as int));
        faultless(front, records);
        assert(a.last() == records[a.len() - 1]);
        assert(records.take(a.len() - 1) =~= front);
    }
}

proof fn grown_further(
    start: &ScopedForest,
    mid: &ScopedForest,
    end: &ScopedForest,
    a: Seq<EdgeEvent>,
    b: Seq<EdgeEvent>,
)
    requires
        grown(start, mid, a),
        grown(mid, end, b),
    ensures
        grown(start, end, a + b),
{
    if start.consistent() {
        assert forall|h: Seq<EdgeEvent>| start.follows(h) implies #[trigger] end.follows(
            h + (a + b),
        ) by {
            assert(mid.follows(h + a));
            assert(h + (a + b) =~= (h + a) + b);
        }
    }
    end.base_stays(mid, start);
}

proof fn grown_by_nothing(f: &ScopedForest)
    requires
        f.wf(),
    ensures
        grown(f, f, Seq::empty()),
{
    assert forall|h: Seq<EdgeEvent>| f.follows(h) implies #[trigger] f.follows(
        h + Seq::<EdgeEvent>::empty(),
    ) by {
        assert(h + Seq::<EdgeEvent>::empty() =~= h);
    }
    f.base_is_its_own();
}

// --- what a batch does ----------------------------------------------------------------

/// **A record is fresh where the worker has not reached its offset**, and what is
/// fresh keeps its order: nothing is dropped that was not applied, nothing is
/// applied twice.
pub proof fn a_record_is_fresh_past_the_position(
    position: Map<PartitionId, u64>,
    a: Seq<Record>,
    b: Seq<Record>,
    r: Record,
)
    ensures
        fresh(position, a + b) == fresh(position, a) + fresh(position, b),
        fresh(position, seq![r]) == if position.contains_key(r.partition) && r.offset
            <= position[r.partition] || r.offset == 0 {
            Seq::empty()
        } else {
            seq![r]
        },
        events_of(a + b) == events_of(a) + events_of(b),
        events_of(seq![r]) == seq![r.event],
    decreases b.len(),
{
    assert(seq![r].drop_last() =~= Seq::empty());
    assert(fresh(position, Seq::empty()) =~= Seq::empty());
    assert(seq![r].last() == r);
    assert(Seq::<Record>::empty().push(r) =~= seq![r]);
    assert(events_of(a + b) =~= events_of(a) + events_of(b));
    assert(events_of(seq![r]) =~= seq![r.event]);
    if b.len() == 0 {
        assert(a + b =~= a);
        assert(fresh(position, a) + fresh(position, b) =~= fresh(position, a));
    } else {
        a_record_is_fresh_past_the_position(position, a, b.drop_last(), r);
        assert((a + b).drop_last() =~= a + b.drop_last());
        assert((a + b).last() == b.last());
        assert(fresh(position, a + b) =~= fresh(position, a) + fresh(position, b));
    }
}

/// What was seen of a partition: as much as any of its records says, and no more.
proof fn seen_is_the_highest(records: Seq<Record>, p: PartitionId)
    ensures
        forall|i: int|
            0 <= i < records.len() && (#[trigger] records[i]).partition == p ==> records[i].offset
                <= applied(seen(records), p),
        applied(seen(records), p) > 0 ==> exists|i: int|
            0 <= i < records.len() && (#[trigger] records[i]).partition == p && records[i].offset
                == applied(seen(records), p),
{
    let entries = places(records);
    entries_give_the_highest_offsets(entries, p);
    let m = seen(records);
    assert forall|i: int| 0 <= i < records.len() && (#[trigger] records[i]).partition == p implies
        records[i].offset <= applied(m, p) by {
        assert(entries[i] == (records[i].partition, records[i].offset));
        assert(m.contains_key(p));
    }
    if applied(m, p) > 0 {
        let i = choose|i: int| 0 <= i < entries.len() && #[trigger] entries[i] == (p, m[p]);
        assert(records[i].partition == p && records[i].offset == m[p]);
    }
}

/// **A partition is an ordered log**: a record is in place where its offset is not
/// zero and lies past that of every record of its partition before it in the
/// batch; otherwise the error names what came before.
pub proof fn a_partition_is_an_ordered_log(before: Seq<Record>, r: Record)
    ensures
        fault(before, r) is None <==> r.offset > 0 && forall|i: int|
            0 <= i < before.len() && (#[trigger] before[i]).partition == r.partition
                ==> before[i].offset < r.offset,
        fault(before, r) == Some(ApplyError::ReservedOffset) <==> r.offset == 0,
        fault(before, r) matches Some(ApplyError::OutOfOrder { offset, previous, partition }) ==> {
            &&& offset == r.offset
            &&& partition == r.partition
            &&& previous >= r.offset
            &&& exists|i: int|
                0 <= i < before.len() && (#[trigger] before[i]).partition == r.partition
                    && before[i].offset == previous
            &&& forall|i: int|
                0 <= i < before.len() && (#[trigger] before[i]).partition == r.partition
                    ==> before[i].offset <= previous
        },
{
    seen_is_the_highest(before, r.partition);
}

/// Where the first `n` records are in place, the first fault is not before them.
proof fn the_first_fault(records: Seq<Record>, n: int)
    requires
        0 <= n <= records.len(),
        sound_upto(records, n),
    ensures
        n <= faulty_at(records) <= records.len(),
        sound_upto(records, faulty_at(records)),
        faulty_at(records) < records.len() ==> fault(
            records.take(faulty_at(records)),
            records[faulty_at(records)],
        ) is Some,
    decreases records.len() - n,
{
    if n == records.len() {
        assert(records.take(n) =~= records);
        assert(forall|j: int|
            0 <= j < records.len() ==> fault(records.take(j), #[trigger] records[j]) is None) by {
            reveal(sound_upto);
        }
        faultless(records, records);
    } else if fault(records.take(n), records[n]) is Some {
        faulty_at_is(records, n);
    } else {
        sound_further(records, n);
        the_first_fault(records, n + 1);
    }
}

/// **A batch is in order where each partition's offsets ascend from one up**, and
/// otherwise it is refused at the first record that is not in place.
pub proof fn a_batch_is_refused_at_the_first_fault(records: Seq<Record>, i: int, j: int)
    ensures
        0 <= faulty_at(records) <= records.len(),
        ordered(records) <==> faulty_at(records) == records.len(),
        ordered(records) && 0 <= i < records.len() ==> records[i].offset > 0,
        ordered(records) && 0 <= i < j < records.len() && records[i].partition
            == records[j].partition ==> records[i].offset < records[j].offset,
        0 <= i < faulty_at(records) ==> fault(records.take(i), records[i]) is None,
        faulty_at(records) < records.len() ==> fault(
            records.take(faulty_at(records)),
            records[faulty_at(records)],
        ) is Some,
{
    let k = faulty_at(records);
    assert(sound_upto(records, 0)) by {
        reveal(sound_upto);
    }
    the_first_fault(records, 0);
    assert(0 <= i < k ==> fault(records.take(i), records[i]) is None) by {
        reveal(sound_upto);
    }
    assert(ordered(records) <==> k == records.len()) by {
        reveal(sound_upto);
        if ordered(records) && k < records.len() {
            assert(fault(records.take(k), records[k]) is None);
        }
    }
    if ordered(records) {
        if 0 <= i < records.len() {
            assert(fault(records.take(i), records[i]) is None);
            a_partition_is_an_ordered_log(records.take(i), records[i]);
        }
        if 0 <= i < j < records.len() {
            assert(fault(records.take(j), records[j]) is None);
            a_partition_is_an_ordered_log(records.take(j), records[j]);
            assert(records.take(j)[i] == records[i]);
        }
    }
}

/// **Where a worker stands after a batch**: in each partition as far as it stood,
/// as far as each record of the batch, and no further than the furthest of
/// these.
pub proof fn a_worker_stands_at_the_furthest_record(
    position: Map<PartitionId, u64>,
    records: Seq<Record>,
    p: PartitionId,
)
    ensures
        ({
            let now = applied(position_after(position, records), p);
            &&& now >= applied(position, p)
            &&& forall|i: int|
                0 <= i < records.len() && (#[trigger] records[i]).partition == p ==> now
                    >= records[i].offset
            &&& now == applied(position, p) || exists|i: int|
                0 <= i < records.len() && (#[trigger] records[i]).partition == p
                    && records[i].offset == now
        }),
{
    standing(position, records, p);
    seen_is_the_highest(records, p);
}

/// **Records are buffered one after the other**, each at its own place.
pub proof fn records_are_buffered_in_turn(
    b: BufferView,
    records: Seq<Record>,
    more: Seq<Record>,
    r: Record,
)
    ensures
        buffered(b, Seq::empty()) == b,
        buffered(b, seq![r]) == appended(b, r.partition, r.offset, r.event),
        buffered(b, records + more) == buffered(buffered(b, records), more),
    decreases more.len(),
{
    assert(seq![r].drop_last() =~= Seq::empty());
    assert(buffered(b, Seq::empty()) == b);
    assert(seq![r].last() == r);
    if more.len() == 0 {
        assert(records + more =~= records);
    } else {
        records_are_buffered_in_turn(b, records, more.drop_last(), r);
        assert((records + more).drop_last() =~= records + more.drop_last());
        assert((records + more).last() == more.last());
    }
}

proof fn a_fresh_record_stays(position: Map<PartitionId, u64>, records: Seq<Record>, i: int) -> (k:
    int)
    requires
        0 <= i < records.len(),
        records[i].offset > applied(position, records[i].partition),
    ensures
        0 <= k < fresh(position, records).len(),
        fresh(position, records)[k] == records[i],
{
    let a = records.take(i);
    let one = seq![records[i]];
    let b = records.skip(i + 1);
    assert(records =~= (a + one) + b);
    a_record_is_fresh_past_the_position(position, a + one, b, records[i]);
    a_record_is_fresh_past_the_position(position, a, one, records[i]);
    fresh(position, a).len() as int
}

/// **A batch that is taken connects and buffers what it brings**: for each record
/// past where the worker stood, every scope that sees its edge sees the ends
/// connected, and a row of it is buffered at its place; and no record brings the
/// worker back.
#[verifier::rlimit(50)]
pub proof fn a_taken_record_is_connected_and_buffered(
    before: &Pipeline,
    after: &Pipeline,
    records: Seq<Record>,
    history: Seq<EdgeEvent>,
    i: int,
    scope: ScopeId,
)
    requires
        took(before, after, records),
        before.forest.consistent(),
        before.forest.follows(history),
        0 <= i < records.len(),
        records[i].offset > applied(before.stats.position@, records[i].partition),
    ensures
        visible(records[i].event, scope) ==> after.forest.root_in(scope, records[i].event.src)
            == after.forest.root_in(scope, records[i].event.dst),
        exists|k: int|
            0 <= k < after.buffer@.active.len() && (#[trigger] after.buffer@.active[k]).partition
                == records[i].partition && after.buffer@.active[k].offset == records[i].offset
                && after.buffer@.active[k].src == records[i].event.src
                && after.buffer@.active[k].dst == records[i].event.dst
                && after.buffer@.active[k].event_time_ms == records[i].event.event_time_ms,
        applied(after.stats.position@, records[i].partition) >= records[i].offset,
        after.buffer@.active.len() >= before.buffer@.active.len(),
        after.buffer@.sealed == before.buffer@.sealed,
{
    reveal(took);
    let new = fresh(before.stats.position@, records);
    let k = a_fresh_record_stays(before.stats.position@, records, i);
    let events = history + events_of(new);
    let at = history.len() + k;
    assert(after.forest.follows(events));
    assert(events[at] == records[i].event);
    if visible(records[i].event, scope) {
        an_edge_connects_its_ends(events, scope, at);
        assert(after.forest.root_in(scope, records[i].event.src) == root_after(
            events,
            scope,
            records[i].event.src,
        ));
        assert(after.forest.root_in(scope, records[i].event.dst) == root_after(
            events,
            scope,
            records[i].event.dst,
        ));
    }
    let _ = a_buffered_record_has_a_row(before.buffer@, new, k);
    a_worker_stands_at_the_furthest_record(
        before.stats.position@,
        records,
        records[i].partition,
    );
}

proof fn a_buffered_record_has_a_row(b: BufferView, records: Seq<Record>, k: int) -> (at: int)
    requires
        0 <= k < records.len(),
    ensures
        0 <= at < buffered(b, records).active.len(),
        buffered(b, records).active[at].partition == records[k].partition,
        buffered(b, records).active[at].offset == records[k].offset,
        buffered(b, records).active[at].src == records[k].event.src,
        buffered(b, records).active[at].dst == records[k].event.dst,
        buffered(b, records).active[at].event_time_ms == records[k].event.event_time_ms,
        buffered(b, records).active.len() >= b.active.len(),
        buffered(b, records).sealed == b.sealed,
    decreases records.len(),
{
    let front = records.drop_last();
    let r = records.last();
    let was = buffered(b, front);
    an_event_has_a_row(r.event);
    if k == records.len() - 1 {
        if front.len() > 0 {
            let _ = a_buffered_record_has_a_row(b, front, 0);
        }
        an_event_is_buffered_as_it_is(was, r.partition, r.offset, r.event, was.active.len() as int);
        was.active.len() as int
    } else {
        let at = a_buffered_record_has_a_row(b, front, k);
        an_event_is_buffered_as_it_is(was, r.partition, r.offset, r.event, at);
        at
    }
}

proof fn an_event_has_a_row(event: EdgeEvent)
    ensures
        event.visibility.audience() matches Some(seen) ==> seen.len() > 0,
{
    an_edge_is_seen_by_its_audience(event.visibility);
    if let Some(seen) = event.visibility.audience() {
        if let Visibility::Scoped(l) = event.visibility {
            assert(l@.contains(l@[0]));
            assert(seen.contains(l@[0]));
        }
    }
}

/// **An offset that is minted is the next one**: events without a log get the
/// offsets after the last, on partition 0.
pub proof fn a_minted_offset_is_the_next(last: u64, events: Seq<EdgeEvent>, i: int)
    requires
        last + events.len() <= u64::MAX,
        0 <= i < events.len(),
    ensures
        minted(last, events).len() == events.len(),
        minted(last, events)[i].partition == 0,
        minted(last, events)[i].offset == last + i + 1,
        minted(last, events)[i].event == events[i],
{
}

/// **A refused batch is told which record it failed at**: its offset, what came
/// before it, and its partition.
#[verifier::rlimit(50)]
pub proof fn a_refusal_names_its_record(
    a: u64,
    b: u64,
    m: u64,
    n: u64,
    p: PartitionId,
    q: PartitionId,
)
    ensures
        apply_error_text(ApplyError::OutOfOrder { offset: a, previous: m, partition: p })
            == apply_error_text(ApplyError::OutOfOrder { offset: b, previous: n, partition: q })
            <==> a == b && m == n && p == q,
{
    reveal_strlit(" after ");
    reveal_strlit(" on partition ");
    reveal_strlit(": a partition is an ordered log");
    crate::text::numbers_are_told_by_their_places(
        "log delivered offset "@,
        (a as nat, m as nat, p as nat),
        (b as nat, n as nat, q as nat),
        " after "@,
        " on partition "@,
        ": a partition is an ordered log"@,
    );
}

/// **A batch in order is taken whole, and only such a batch**: every record past
/// where the worker stood is connected for each scope that sees it, and the worker
/// then stands at or past it; where the batch is refused it is so at its first
/// record out of order, and what came before that is taken.
#[verifier::rlimit(50)]
pub proof fn a_batch_in_order_is_taken_whole(
    worker: &mut Pipeline,
    records: &[Record],
    r: Result<u64, ApplyError>,
    history: Seq<EdgeEvent>,
    i: int,
    scope: ScopeId,
)
    requires
        call_ensures(Pipeline::apply_batch, (worker, records), r),
        old(worker).forest.consistent(),
        old(worker).forest.follows(history),
        0 <= i < records@.len(),
        records@[i].offset > applied(old(worker).stats.position@, records@[i].partition),
    ensures
        r is Ok && visible(records@[i].event, scope) ==> final(worker).forest.root_in(
            scope,
            records@[i].event.src,
        ) == final(worker).forest.root_in(scope, records@[i].event.dst),
        r is Ok ==> applied(final(worker).stats.position@, records@[i].partition)
            >= records@[i].offset,
        r is Ok ==> ({
            let rows = final(worker).buffer@.active;
            exists|k: int|
                0 <= k < rows.len() && (#[trigger] rows[k]).partition == records@[i].partition
                    && rows[k].offset == records@[i].offset && rows[k].src == records@[i].event.src
                    && rows[k].dst == records@[i].event.dst && rows[k].event_time_ms
                    == records@[i].event.event_time_ms
        }),
        final(worker).buffer@.sealed == old(worker).buffer@.sealed,
{
    if r is Ok {
        a_taken_record_is_connected_and_buffered(
            old(worker),
            final(worker),
            records@,
            history,
            i,
            scope,
        );
    } else {
        reveal(took);
        buffering_seals_nothing(
            worker.buffer@,
            fresh(worker.stats.position@, records@.take(faulty_at(records@))),
        );
    }
}

proof fn buffering_seals_nothing(b: BufferView, records: Seq<Record>)
    ensures
        buffered(b, records).sealed == b.sealed,
    decreases records.len(),
{
    if records.len() > 0 {
        buffering_seals_nothing(b, records.drop_last());
    }
}

/// **A refused batch repeats a partition's offset or goes back**: a record of the
/// same partition before the one refused has its offset or a later one; and a
/// batch that is taken does neither.
pub proof fn a_refused_batch_goes_back(
    worker: &mut Pipeline,
    records: &[Record],
    r: Result<u64, ApplyError>,
    i: int,
    j: int,
)
    requires
        call_ensures(Pipeline::apply_batch, (worker, records), r),
    ensures
        r is Ok && 0 <= i < j < records@.len() && records@[i].partition == records@[j].partition
            ==> records@[i].offset < records@[j].offset,
{
    a_batch_is_refused_at_the_first_fault(records@, i, j);
}

/// **A worker that is resumed stands where it is told to**, and minted events move
/// it on by one each, on partition 0.
pub proof fn a_resumed_worker_stands_where_it_is_told(
    forest: ScopedForest,
    buffer: EdgeBuffer,
    start: StreamPosition,
    resumed: Pipeline,
    worker: &mut Pipeline,
    events: &[EdgeEvent],
    p: PartitionId,
)
    requires
        call_ensures(Pipeline::resuming, (forest, buffer, start), resumed),
        call_ensures(Pipeline::mint, (worker, events), ()),
        events@.len() > 0,
    ensures
        applied(resumed.stats.position@, p) == applied(start@, p),
        resumed.forest == forest && resumed.buffer == buffer,
        final(worker).stats.last_offset == old(worker).stats.last_offset + events@.len(),
        p != 0 ==> applied(final(worker).stats.position@, p) == applied(
            old(worker).stats.position@,
            p,
        ),
        applied(final(worker).stats.position@, 0) >= final(worker).stats.last_offset,
{
}

} // verus!
