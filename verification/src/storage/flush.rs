//! The micro-batch flush.
//!
//! Every worker seals its active buffer on each tick and prunes segments the
//! committed position has passed. Only the elected leader writes: data file and
//! Puffin sidecar first, then the atomic catalog commit that makes both
//! visible. A failed commit leaves sealed segments in place for the next tick:
//! at-least-once flush, exactly-once visibility.
//!
//! What a tick decides and what a fold does to the forest stand here; the
//! caller performs the reads and writes in between.

use std::sync::Arc;
use vstd::prelude::*;

use super::base::{opened, PuffinBase};
use super::catalog::{
    chain_start, CommitOutcome, DataFileMeta, SnapshotMeta,
};
use super::codec::{base_blobs, collected_tables, BlobWriter, WriteOptions};
use super::compact::{compact_options, compacted_registry, compacted_tables};
use super::compacted::{
    a_compacted_stack_answers_alike, faithful_registry, faithful_stack,
};
use super::layered::LayeredBase;
use super::listing::{
    a_stack_of_indexes_is_valid, compacted_file_lists_the_forest, indexes_its_layers,
    indexes_its_tables, one_layer_fits, written_members_are_served,
};
use super::names::text_views;
use super::puffin::{blob_views, file_bytes, properties_view, Blob, BlobView};
use super::retention::{
    a_retained_snapshot_keeps_what_it_needs, is_closure, names, reachable, stands, walks,
};
use super::round_trip::{
    compacted_file_serves_the_forest, file_of, metas_of, serves_tables, written_base_is_served,
};
use super::sorted::{registry_listing, registry_listing_lists, registry_strict};
use super::stacking::{
    a_lone_base_is_a_stack, a_pushed_delta_captures_the_forest, empty_delta_registries,
    well_stacked,
};
use crate::graph::base::{
    kids_index, lists, lists_in_order, resolved, same_base, settled, untouched, valid_base, valid_member_index,
    RoutingBase,
};
use crate::graph::scoped::{counted, fails_with, ScopedForest};
use crate::graph::sink::{registry_events, SinkEvent, SnapshotSink};
use crate::graph::snapshot::SnapshotView;
use crate::graph::stream::{
    a_position_holds_the_highest_offset, applied, covers, domination_is_an_order, joined,
    merging_is_the_least_cover, scalar_of, PartitionId, StreamId, StreamPosition,
};
use crate::graph::types::{NodeId, ScopeId};
use crate::text::{decimal, decimal_text};
use crate::ingest::buffer::{
    row_total, sealed_to, segment_views, total_rows, undurable, BufferView, EdgeBuffer, Segment,
    SegmentView,
};

verus! {

/// Links a memtable may hold before a worker that is not committing folds.
pub const DEFAULT_FOLD_AFTER_LINKS: u64 = 1_000_000;

/// Delta layers to carry before compacting: a dial between the cost of a lookup
/// and that of rewriting the base.
pub const DEFAULT_MAX_DELTA_LAYERS: usize = 24;

/// Warn when a fold stalls ingest for longer than this.
pub const FOLD_STALL_WARN_MS: u64 = 5_000;

/// The layer files this worker serves from, and what the catalog knows of them.
#[derive(Debug)]
pub struct LocalLayers {
    pub base: Arc<LayeredBase>,
    /// Files backing `base`, oldest first, so compaction can unlink what it
    /// subsumes.
    pub paths: Vec<String>,
    /// Catalog sequence of the base layer.
    pub base_sequence: u64,
    /// Catalog sequence the newest layer was committed as, or `None` when the
    /// newest layer exists only on this worker's disk.
    ///
    /// This is what makes it safe to commit a delta at all: a follower folds
    /// locally, so its stack can run ahead of the catalog, and a delta
    /// committed on top would leave the committed chain with a hole.
    pub committed_through: Option<u64>,
}

impl LocalLayers {
    /// The stack resolves and registers as a base must, layer by layer.
    pub open spec fn sound(&self) -> bool {
        &&& self.base.wf()
        &&& well_stacked(&*self.base)
        &&& valid_base(&*self.base)
        &&& faithful_stack(&*self.base)
    }
}

/// Copies of `names`.
fn clone_texts(names: &Vec<String>) -> (out: Vec<String>)
    ensures
        text_views(out@) == text_views(names@),
{
    let mut out: Vec<String> = Vec::new();
    let mut i: usize = 0;
    while i < names.len()
        invariant
            i <= names@.len(),
            out@.len() == i,
            forall|j: int| 0 <= j < i ==> (#[trigger] out@[j])@ == names@[j]@,
        decreases names@.len() - i,
    {
        out.push(names[i].clone());
        i += 1;
    }
    assert(text_views(out@) =~= text_views(names@));
    out
}

impl LocalLayers {
    /// The layers of the chain that `latest` describes, as mapped at startup.
    /// Every one came from the catalog, so a delta may be layered on top
    /// immediately.
    pub fn from_catalog(base: Arc<LayeredBase>, paths: Vec<String>, latest: &SnapshotMeta) -> (l:
        LocalLayers)
        ensures
            l == (LocalLayers {
                base,
                paths,
                base_sequence: chain_start(latest.base_sequence, latest.sequence),
                committed_through: Some(latest.sequence),
            }),
    {
        let base_sequence: u64 = latest.chain_base();
        LocalLayers { base, paths, base_sequence, committed_through: Some(latest.sequence) }
    }

    /// What a commit of the newest layer as `sequence` changes. A lost race
    /// leaves the layer local-only, so the next tick compacts rather than
    /// commit a delta whose chain the catalog never saw.
    pub fn record_outcome(&mut self, outcome: CommitOutcome, sequence: u64)
        ensures
            *final(self) == (LocalLayers {
                committed_through: match outcome {
                    CommitOutcome::Committed => Some(sequence),
                    CommitOutcome::Conflict => old(self).committed_through,
                },
                ..*old(self)
            }),
    {
        match outcome {
            CommitOutcome::Committed => {
                self.committed_through = Some(sequence);
            },
            CommitOutcome::Conflict => {},
        }
    }
}

// --- what a tick does ---------------------------------------------------------------------------------

/// The sequence after the latest committed one; the first is 1.
pub fn next_sequence(latest: Option<&SnapshotMeta>) -> (sequence: u64)
    requires
        latest matches Some(m) ==> m.sequence < u64::MAX,
    ensures
        sequence == (match latest {
            Some(m) => m.sequence + 1,
            None => 1int,
        }),
{
    match latest {
        Some(m) => m.sequence + 1,
        None => 1,
    }
}

/// Where the stream stands as of `latest`; nothing where there is no snapshot.
pub open spec fn committed_at(latest: Option<&SnapshotMeta>) -> Map<PartitionId, u64> {
    match latest {
        Some(m) => m.stands_at(),
        None => Map::empty(),
    }
}

/// Starts a tick: rotates the active buffer into a sealed segment. The catalog
/// is asked only then, so what was buffered is sealed whether or not it
/// answers.
pub fn begin_tick(buffer: &mut EdgeBuffer)
    requires
        old(buffer)@.active.len() <= u32::MAX,
    ensures
        sealed_to(old(buffer)@, final(buffer)@),
{
    let ghost before = buffer@;
    let _ = buffer.seal_active();
    assert(sealed_to(before, buffer@)) by {
        if before.active.len() > 0 {
            assert(buffer@.sealed.drop_last() =~= before.sealed);
        }
    }
}

/// Drops the segments that the latest snapshot covers. Returns how many.
pub fn prune_covered(buffer: &mut EdgeBuffer, latest: Option<&SnapshotMeta>) -> (dropped: usize)
    ensures
        dropped == old(buffer)@.sealed.len() - final(buffer)@.sealed.len(),
        final(buffer)@ == (match latest {
            Some(m) => BufferView {
                sealed: undurable(old(buffer)@.sealed, m.stands_at()),
                ..old(buffer)@
            },
            None => old(buffer)@,
        }),
{
    match latest {
        Some(m) => buffer.drop_committed(&m.stream_position()),
        None => 0,
    }
}

/// Ends a commit of everything up to `position` as `sequence`. Once it is
/// committed its segments are durable, and the newest layer is part of the
/// chain; a lost race changes nothing, and the segments stay for the next tick.
pub fn settle_commit(
    buffer: &mut EdgeBuffer,
    local: &mut Option<LocalLayers>,
    outcome: CommitOutcome,
    sequence: u64,
    position: &StreamPosition,
) -> (dropped: usize)
    ensures
        match outcome {
            CommitOutcome::Conflict => dropped == 0 && final(buffer)@ == old(buffer)@
                && *final(local) == *old(local),
            CommitOutcome::Committed => {
                &&& final(buffer)@ == (BufferView {
                    sealed: undurable(old(buffer)@.sealed, position@),
                    ..old(buffer)@
                })
                &&& dropped == old(buffer)@.sealed.len() - final(buffer)@.sealed.len()
                &&& match *old(local) {
                    None => *final(local) is None,
                    Some(l) => *final(local) == Some(
                        LocalLayers { committed_through: Some(sequence), ..l },
                    ),
                }
            },
        },
{
    match outcome {
        CommitOutcome::Conflict => 0,
        CommitOutcome::Committed => {
            if let Some(mut l) = local.take() {
                l.record_outcome(outcome, sequence);
                *local = Some(l);
            }
            buffer.drop_committed(position)
        },
    }
}

/// Whether the layer chain has grown long enough to compact. Without a disk
/// tier there is no chain.
pub open spec fn chain_is_long(
    disk: bool,
    local: Option<&LocalLayers>,
    max_delta_layers: usize,
) -> bool {
    disk && local is Some && local->Some_0.base.stack().len() >= max_delta_layers
}

/// What a flush tick does next.
#[derive(Debug, Clone, Copy, PartialEq, Eq, Structural)]
pub enum TickPlan {
    /// Not the leader: fold locally if the memtable is large. Followers serve
    /// from the same structures, so their memtable grows at the same rate.
    FoldLocally,
    /// Merge the chain from storage and publish it as its own snapshot.
    CompactChain,
    /// Nothing to commit.
    Idle,
    /// Write the sealed segments and a layer, then commit both.
    Commit,
}

/// What a tick does, with `pending` sealed segments.
pub fn plan_tick(
    leader: bool,
    disk: bool,
    local: Option<&LocalLayers>,
    max_delta_layers: usize,
    pending: usize,
) -> (p: TickPlan)
    requires
        local matches Some(l) ==> l.base.wf(),
    ensures
        p is FoldLocally <==> !leader,
        p is CompactChain <==> leader && chain_is_long(disk, local, max_delta_layers),
        p is Idle <==> leader && !chain_is_long(disk, local, max_delta_layers) && pending == 0,
        p is Commit <==> leader && !chain_is_long(disk, local, max_delta_layers) && pending > 0,
{
    if !leader {
        return TickPlan::FoldLocally;
    }
    if disk {
        if let Some(l) = local {
            if l.base.layers() >= max_delta_layers {
                return TickPlan::CompactChain;
            }
        }
    }
    if pending == 0 {
        TickPlan::Idle
    } else {
        TickPlan::Commit
    }
}

/// What a tick does after trying to compact the chain: it ends once the merge
/// is published, and otherwise goes on to the segments.
pub fn plan_after_compaction(published: bool, pending: usize) -> (p: TickPlan)
    ensures
        p is Idle <==> published || pending == 0,
        p is Commit <==> !published && pending > 0,
{
    if published || pending == 0 {
        TickPlan::Idle
    } else {
        TickPlan::Commit
    }
}

/// What a fold makes of the memtable.
#[derive(Debug, Clone, Copy, PartialEq, Eq, Structural)]
pub enum FoldPlan {
    /// Nothing to fold: not due, or no disk tier to fold into.
    Skip,
    /// A full base: self-contained, resets the chain.
    Base,
    /// A delta over the layers there are.
    Delta,
}

/// What a fold makes of a memtable of `links` links. `force` means that the
/// caller is a leader that needs a layer to commit; otherwise the size decides.
///
/// It is a full base when nothing has been mapped yet, when the chain is long
/// enough to compact, or when the newest layer is local-only.
pub fn plan_fold(
    disk: bool,
    force: bool,
    links: u64,
    fold_after_links: u64,
    local: Option<&LocalLayers>,
    max_delta_layers: usize,
) -> (p: FoldPlan)
    requires
        local matches Some(l) ==> l.base.wf(),
    ensures
        p is Skip <==> !disk || (!force && links < fold_after_links),
        p is Delta <==> disk && (force || links >= fold_after_links) && local is Some
            && local->Some_0.committed_through is Some && local->Some_0.base.stack().len()
            < max_delta_layers,
{
    if !disk || (!force && links < fold_after_links) {
        return FoldPlan::Skip;
    }
    match local {
        None => FoldPlan::Base,
        Some(l) => if l.base.layers() >= max_delta_layers || l.committed_through.is_none() {
            FoldPlan::Base
        } else {
            FoldPlan::Delta
        },
    }
}

/// Whether a fold of `stalled_ms` milliseconds is worth a warning.
pub fn stalled_long(stalled_ms: u64) -> (r: bool)
    ensures
        r == (stalled_ms > 5_000),
{
    stalled_ms > FOLD_STALL_WARN_MS
}

// --- what a commit says -------------------------------------------------------------------------------

/// Where a stream that stood at `start` stands once `segments` are durable.
pub open spec fn reached(start: Map<PartitionId, u64>, segments: Seq<SegmentView>) -> Map<
    PartitionId,
    u64,
>
    decreases segments.len(),
{
    if segments.len() == 0 {
        start
    } else {
        joined(reached(start, segments.drop_last()), segments.last().last)
    }
}

/// The lowest offset of `p` in `segments`; `0` when none holds any.
pub open spec fn lowest(segments: Seq<SegmentView>, p: PartitionId) -> u64
    decreases segments.len(),
{
    if segments.len() == 0 {
        0
    } else {
        let before = lowest(segments.drop_last(), p);
        let here = applied(segments.last().first, p);
        if before == 0 || (here != 0 && here < before) {
            here
        } else {
            before
        }
    }
}

/// Where the stream stands once `segments` are committed after `latest`.
pub fn batch_position(latest: Option<&SnapshotMeta>, segments: &Vec<Segment>) -> (p:
    StreamPosition)
    ensures
        p@ == reached(committed_at(latest), segment_views(segments@)),
{
    let mut p = match latest {
        Some(m) => m.stream_position(),
        None => StreamPosition::new(),
    };
    let ghost start = p@;
    let ghost all = segment_views(segments@);
    let mut i: usize = 0;
    while i < segments.len()
        invariant
            i <= segments@.len(),
            all == segment_views(segments@),
            p@ == reached(start, all.take(i as int)),
        decreases segments@.len() - i,
    {
        p.merge(&segments[i].last);
        assert(all.take(i + 1).drop_last() =~= all.take(i as int));
        assert(all.take(i + 1).last() == segments@[i as int]@);
        i += 1;
    }
    assert(all.take(i as int) =~= all);
    p
}

fn lowest_offset(segments: &Vec<Segment>, p: PartitionId) -> (offset: u64)
    ensures
        offset == lowest(segment_views(segments@), p),
{
    let ghost all = segment_views(segments@);
    let mut low: u64 = 0;
    let mut i: usize = 0;
    while i < segments.len()
        invariant
            i <= segments@.len(),
            all == segment_views(segments@),
            low == lowest(all.take(i as int), p),
        decreases segments@.len() - i,
    {
        let here: u64 = segments[i].first.get(p);
        assert(all.take(i + 1).drop_last() =~= all.take(i as int));
        assert(all.take(i + 1).last() == segments@[i as int]@);
        if low == 0 || (here != 0 && here < low) {
            low = here;
        }
        i += 1;
    }
    assert(all.take(i as int) =~= all);
    low
}

/// The lowest offset that `segments` hold, for each partition in `reach`.
pub fn batch_start(segments: &Vec<Segment>, reach: &StreamPosition) -> (first: StreamPosition)
    ensures
        forall|p: PartitionId| #[trigger]
            first@.contains_key(p) <==> reach@.contains_key(p) && lowest(
                segment_views(segments@),
                p,
            ) > 0,
        forall|p: PartitionId| #[trigger]
            first@.contains_key(p) ==> first@[p] == lowest(segment_views(segments@), p),
{
    let parts = reach.partitions();
    let ghost all = segment_views(segments@);
    let mut first = StreamPosition::new();
    let mut i: usize = 0;
    while i < parts.len()
        invariant
            i <= parts@.len(),
            all == segment_views(segments@),
            forall|p: PartitionId| #[trigger]
                first@.contains_key(p) <==> parts@.take(i as int).contains(p) && lowest(all, p)
                    > 0,
            forall|p: PartitionId| #[trigger]
                first@.contains_key(p) ==> first@[p] == lowest(all, p),
        decreases parts@.len() - i,
    {
        let p: PartitionId = parts[i];
        let low: u64 = lowest_offset(segments, p);
        let ghost was = first@;
        if low > 0 {
            first.advance(p, low);
        }
        proof {
            let done = parts@.take(i as int);
            let more = parts@.take(i + 1);
            assert(more =~= done.push(p));
            assert forall|q: PartitionId| more.contains(q) <==> done.contains(q) || q == p by {
                if done.contains(q) {
                    let j = done.index_of(q);
                    assert(more[j] == q);
                }
                assert(more[i as int] == p);
            }
        }
        i += 1;
    }
    assert(parts@.take(i as int) =~= parts@);
    first
}

/// The data file of `bytes` bytes that holds `segments`.
pub fn data_file(path: String, bytes: u64, segments: &Vec<Segment>) -> (f: DataFileMeta)
    ensures
        f.path == path,
        f.rows == row_total(segment_views(segments@)),
        f.bytes == bytes,
        f.last_position@ == reached(Map::empty(), segment_views(segments@)),
        forall|p: PartitionId| #[trigger]
            f.first_position@.contains_key(p) <==> f.last_position@.contains_key(p) && lowest(
                segment_views(segments@),
                p,
            ) > 0,
        forall|p: PartitionId| #[trigger]
            f.first_position@.contains_key(p) ==> f.first_position@[p] == lowest(
                segment_views(segments@),
                p,
            ),
        f.min_offset == scalar_or_zero(f.first_position@),
        f.max_offset == scalar_or_zero(f.last_position@),
{
    let last_position = batch_position(None, segments);
    let first_position = batch_start(segments, &last_position);
    let min_offset: u64 = scalar_of_position(&first_position);
    let max_offset: u64 = scalar_of_position(&last_position);
    let rows: u64 = total_rows(segments) as u64;
    DataFileMeta { path, rows, bytes, min_offset, max_offset, first_position, last_position }
}

/// A position as a scalar where one is exact, and `0` otherwise.
pub open spec fn scalar_or_zero(m: Map<PartitionId, u64>) -> u64 {
    match scalar_of(m) {
        Some(n) => n,
        None => 0,
    }
}

/// What a commit's layer is.
#[derive(Debug, Clone, Copy, PartialEq, Eq, Structural)]
pub enum Layer {
    /// A full base: self-contained, resets the chain.
    Base,
    /// A delta over the base at `base_sequence`.
    Delta { base_sequence: u64 },
}

/// The sequence of the base that a layer committed as `sequence` stands on.
pub open spec fn base_under(layer: Layer, sequence: u64) -> u64 {
    match layer {
        Layer::Base => sequence,
        Layer::Delta { base_sequence } => base_sequence,
    }
}

fn scalar_of_position(position: &StreamPosition) -> (n: u64)
    ensures
        n == scalar_or_zero(position@),
{
    match position.as_scalar() {
        Some(n) => n,
        None => 0,
    }
}

/// The snapshot that commits a micro-batch.
///
/// Its routing state is a base and the deltas above it, so it describes itself
/// as that chain: it lists no runs, and claims no format that promises any.
pub fn batch_meta(
    sequence: u64,
    now_ms: i64,
    position: StreamPosition,
    stream: Option<StreamId>,
    file: DataFileMeta,
    puffin_path: String,
    committer: String,
    layer: Layer,
) -> (m: SnapshotMeta)
    requires
        base_under(layer, sequence) <= sequence,
    ensures
        m.sequence == sequence,
        m.committed_at_ms == now_ms,
        m.position@ == position@,
        m.watermark == scalar_or_zero(position@),
        m.stream == stream,
        m.data_files@ == seq![file],
        m.puffin_path == puffin_path,
        m.committer == committer,
        m.base_sequence == base_under(layer, sequence),
        m.delta_chain_len == sequence - base_under(layer, sequence),
        m.runs@.len() == 0,
        m.format_version == 0,
        m.is_chain(),
{
    let base_sequence: u64 = match layer {
        Layer::Base => sequence,
        Layer::Delta { base_sequence } => base_sequence,
    };
    let mut data_files: Vec<DataFileMeta> = Vec::new();
    data_files.push(file);
    assert(data_files@ =~= seq![file]);
    SnapshotMeta {
        sequence,
        committed_at_ms: now_ms,
        watermark: scalar_of_position(&position),
        position,
        stream,
        data_files,
        puffin_path,
        committer,
        base_sequence,
        delta_chain_len: sequence - base_sequence,
        runs: Vec::new(),
        format_version: 0,
    }
}

/// The snapshot that publishes a merged chain. It carries the **previous**
/// position and no data files, because that is what it covers: the merged
/// layers, and not the memtable.
pub fn compaction_meta(
    sequence: u64,
    now_ms: i64,
    latest: Option<&SnapshotMeta>,
    stream: Option<StreamId>,
    puffin_path: String,
    committer: String,
) -> (m: SnapshotMeta)
    ensures
        m.sequence == sequence,
        m.committed_at_ms == now_ms,
        m.position@ == (match latest {
            Some(l) => l.stands_at(),
            None => Map::empty(),
        }),
        m.watermark == scalar_or_zero(m.position@),
        m.stream == stream,
        m.data_files@.len() == 0,
        m.puffin_path == puffin_path,
        m.committer == committer,
        m.base_sequence == sequence,
        m.delta_chain_len == 0,
        m.runs@.len() == 0,
        m.format_version == 0,
        m.is_chain(),
{
    let position = match latest {
        Some(l) => l.stream_position(),
        None => StreamPosition::new(),
    };
    SnapshotMeta {
        sequence,
        committed_at_ms: now_ms,
        watermark: scalar_of_position(&position),
        position,
        stream,
        data_files: Vec::new(),
        puffin_path,
        committer,
        base_sequence: sequence,
        delta_chain_len: 0,
        runs: Vec::new(),
        format_version: 0,
    }
}

/// What a Puffin file says of itself.
pub fn puffin_metadata(watermark: u64) -> (properties: Vec<(String, String)>)
    ensures
        properties_view(properties@) == seq![
            ("created-by"@, "blaze"@),
            ("watermark"@, decimal(watermark as nat)),
        ],
{
    let mut properties: Vec<(String, String)> = Vec::new();
    properties.push((String::from_str("created-by"), String::from_str("blaze")));
    properties.push((String::from_str("watermark"), decimal_text(watermark)));
    assert(properties_view(properties@) =~= seq![
        ("created-by"@, "blaze"@),
        ("watermark"@, decimal(watermark as nat)),
    ]);
    properties
}

proof fn reached_covers(start: Map<PartitionId, u64>, segments: Seq<SegmentView>, n: int)
    requires
        0 <= n <= segments.len(),
    ensures
        covers(reached(start, segments), reached(start, segments.take(n))),
    decreases segments.len(),
{
    let all = reached(start, segments);
    domination_is_an_order(all, all, all);
    if n == segments.len() {
        assert(segments.take(n) =~= segments);
    } else {
        let front = segments.drop_last();
        reached_covers(start, front, n);
        assert(front.take(n) =~= segments.take(n));
        let mid = reached(start, front);
        merging_is_the_least_cover(mid, segments.last().last, all);
        domination_is_an_order(all, mid, reached(start, segments.take(n)));
    }
}

/// **A committed batch is durable and the stream only moves forward**: the
/// position that commits `segments` after a snapshot covers where that snapshot
/// stood, and covers every segment, so none of them stays behind in the buffer.
pub proof fn a_committed_batch_is_covered(
    start: Map<PartitionId, u64>,
    segments: Seq<SegmentView>,
    n: int,
)
    requires
        0 <= n <= segments.len(),
    ensures
        covers(reached(start, segments), start),
        undurable(segments.take(n), reached(start, segments)).len() == 0,
    decreases n,
{
    let all = reached(start, segments);
    reached_covers(start, segments, 0);
    assert(segments.take(0) =~= Seq::empty());
    if n > 0 {
        a_committed_batch_is_covered(start, segments, n - 1);
        let upto = segments.take(n);
        assert(upto.drop_last() =~= segments.take(n - 1));
        reached_covers(start, segments, n);
        let mid = reached(start, segments.take(n - 1));
        let here = reached(start, upto);
        merging_is_the_least_cover(mid, upto.last().last, here);
        domination_is_an_order(all, here, upto.last().last);
    }
}

/// **A retained commit keeps its chain**: where a sweep keeps a snapshot that
/// describes itself as a chain, as every commit here does, it keeps each
/// snapshot from the base on, and what that names, so a cold start finds every
/// layer.
pub proof fn a_retained_commit_keeps_its_chain(
    metas: Seq<SnapshotMeta>,
    start: Set<u64>,
    retained: Set<u64>,
    i: int,
    sequence: u64,
)
    requires
        is_closure(metas, start, retained),
        stands(metas, i),
        retained.contains(metas[i].sequence),
        metas[i].is_chain(),
        chain_start(metas[i].base_sequence, metas[i].sequence) <= sequence <= metas[i].sequence,
    ensures
        retained.contains(sequence),
        forall|j: int, path: Seq<char>|
            0 <= j < metas.len() && metas[j].sequence == sequence && #[trigger] names(
                metas[j],
                path,
            ) ==> reachable(metas, retained, path),
{
    assert(walks(metas[i], sequence));
    assert forall|j: int, path: Seq<char>|
        0 <= j < metas.len() && metas[j].sequence == sequence && #[trigger] names(
            metas[j],
            path,
        ) implies reachable(metas, retained, path) by {
        a_retained_snapshot_keeps_what_it_needs(metas, start, retained, i, j, path);
    }
}

// --- folding ------------------------------------------------------------------------------------------

/// `b` was opened from a file of `blobs`.
pub open spec fn opened_from(b: &PuffinBase, blobs: Seq<BlobView>) -> bool {
    b.wf() && exists|footer: Seq<u8>| #[trigger] written_as(b, blobs, footer)
}

pub open spec fn written_as(b: &PuffinBase, blobs: Seq<BlobView>, footer: Seq<u8>) -> bool {
    &&& b.content() == file_bytes(blobs, footer)
    &&& footer.len() <= u32::MAX
    &&& b.content().len() <= usize::MAX
    &&& b.represents(opened(b.content(), metas_of(blobs))->Ok_0)
    &&& b.lists_from(metas_of(blobs))
}

/// The blobs of a layer with what was streamed in `events`.
pub open spec fn streamed_blobs(
    events: Seq<SinkEvent>,
    opts: WriteOptions,
    sequence: u64,
) -> Seq<BlobView> {
    base_blobs(
        collected_tables(events),
        registry_listing(registry_events(events)),
        opts,
        sequence as i64,
    )
}

/// `base` and `t` are what `publish` made of blobs that hold `events`.
pub open spec fn published<T, E, F: FnOnce(Vec<Blob>) -> Result<(Arc<PuffinBase>, T), E>>(
    publish: F,
    expected: Seq<BlobView>,
    base: Arc<PuffinBase>,
    t: T,
) -> bool {
    exists|blobs: Vec<Blob>| #[trigger]
        publish.ensures((blobs,), Ok((base, t))) && blob_views(blobs@) == expected
}

/// `e` is why `publish` could not publish blobs that hold `expected`.
pub open spec fn unpublished<T, E, F: FnOnce(Vec<Blob>) -> Result<(Arc<PuffinBase>, T), E>>(
    publish: F,
    expected: Seq<BlobView>,
    e: E,
) -> bool {
    exists|blobs: Vec<Blob>| #[trigger]
        publish.ensures((blobs,), Err(e)) && blob_views(blobs@) == expected
}

/// A base behind a trait object.
pub struct AnyBase {
    pub base: Arc<dyn RoutingBase>,
}

/// `out` is one layer of what `w` received, behind either handle.
spec fn laid<T, E, F: FnOnce(Vec<Blob>) -> Result<(Arc<PuffinBase>, T), E>>(
    publish: F,
    w: BlobWriter,
    out: (Arc<dyn RoutingBase>, (Arc<LayeredBase>, T)),
) -> bool {
    let layered = out.1.0;
    &&& layered.wf()
    &&& layered.stack().len() == 1
    &&& same_base(&*layered, &*out.0)
    &&& opened_from(&*layered.stack()[0], wrote(w))
    &&& published(publish, wrote(w), layered.stack()[0], out.1.1)
    &&& registry_listing(registry_events(w.received())).len() <= usize::MAX
}

spec fn made<T, E, F: FnOnce(Vec<Blob>) -> Result<(Arc<PuffinBase>, T), E>>(
    publish: F,
    w: BlobWriter,
    out: Result<(Arc<dyn RoutingBase>, (Arc<LayeredBase>, T)), E>,
) -> bool {
    match out {
        Ok(p) => laid(publish, w, p),
        Err(e) => unpublished(publish, wrote(w), e),
    }
}

/// What a change of base leaves alone.
pub open spec fn keeps_counters(before: &ScopedForest, after: &ScopedForest) -> bool {
    &&& after.event_count() == before.event_count()
    &&& after.tracking() == before.tracking()
    &&& after.scope_link_count() == before.scope_link_count()
    &&& after.fixup_count() == before.fixup_count()
}

proof fn same_base_orders_alike<A: RoutingBase + ?Sized, B: RoutingBase + ?Sized>(a: &A, b: &B)
    requires
        same_base(a, b),
    ensures
        lists_in_order(a) == lists_in_order(b),
{
    assert forall|p: NodeId, limit: nat|
        #![trigger a.shared_some(p, limit)]
        #![trigger b.shared_some(p, limit)]
        a.shared_some(p, limit) == b.shared_some(p, limit) && a.shared_kids(p) == b.shared_kids(
            p,
        ) by {}
    assert forall|s: ScopeId, p: NodeId, limit: nat|
        #![trigger a.overlay_some(s, p, limit)]
        #![trigger b.overlay_some(s, p, limit)]
        a.overlay_some(s, p, limit) == b.overlay_some(s, p, limit) && a.overlay_kids(s, p)
            == b.overlay_kids(s, p) by {}
}

/// Either handle on a base lists the same members.
proof fn same_base_lists_alike<A: RoutingBase + ?Sized, B: RoutingBase + ?Sized>(
    forest: &ScopedForest,
    a: &A,
    b: &B,
)
    requires
        same_base(a, b),
        forest.lists_members_as(b),
    ensures
        forest.lists_members_as(a),
{
    same_base_orders_alike(a, b);
    assert((|p: NodeId| a.shared_kids(p)) =~= (|p: NodeId| b.shared_kids(p)));
    assert forall|s: ScopeId|
        kids_index(#[trigger] a.overlay_links(s), |p: NodeId| a.overlay_kids(s, p)) == kids_index(
            b.overlay_links(s),
            |p: NodeId| b.overlay_kids(s, p),
        ) by {
        assert((|p: NodeId| a.overlay_kids(s, p)) =~= (|p: NodeId| b.overlay_kids(s, p)));
        assert(a.overlay_links(s) == b.overlay_links(s));
    }
    if valid_member_index(b) {
        assert forall|s: ScopeId|
            kids_index(#[trigger] a.overlay_links(s), |p: NodeId| a.overlay_kids(s, p)) by {
            assert(a.overlay_links(s) == b.overlay_links(s));
            assert(kids_index(b.overlay_links(s), |p: NodeId| b.overlay_kids(s, p)));
        }
    }
    if valid_member_index(a) {
        assert forall|s: ScopeId|
            kids_index(#[trigger] b.overlay_links(s), |p: NodeId| b.overlay_kids(s, p)) by {
            assert(a.overlay_links(s) == b.overlay_links(s));
            assert(kids_index(a.overlay_links(s), |p: NodeId| a.overlay_kids(s, p)));
        }
    }
}

proof fn same_base_is_valid<A: RoutingBase + ?Sized, B: RoutingBase + ?Sized>(a: &A, b: &B)
    requires
        same_base(a, b),
        valid_base(a),
    ensures
        valid_base(b),
{
    assert forall|s: ScopeId| #[trigger] resolved(b.overlay_links(s)) && settled(
        b.shared_links(),
        b.overlay_links(s),
    ) && lists(b.overlay_stream(s), b.overlay_links(s)) by {
        assert(a.overlay_links(s) == b.overlay_links(s));
        assert(a.overlay_stream(s) == b.overlay_stream(s));
        assert(resolved(a.overlay_links(s)));
        assert(settled(a.shared_links(), a.overlay_links(s)));
        assert(lists(a.overlay_stream(s), a.overlay_links(s)));
    }
    assert forall|s: ScopeId| lists(#[trigger] b.overlay_stream(s), b.overlay_links(s)) by {
        assert(resolved(b.overlay_links(s)));
    }
    assert forall|s: ScopeId| settled(b.shared_links(), #[trigger] b.overlay_links(s)) by {
        assert(resolved(b.overlay_links(s)));
    }
    assert forall|s: ScopeId, k: NodeId| #[trigger] b.overlay_links(s).contains_key(
        k,
    ) implies b.scope_list().contains(s) by {
        assert(a.overlay_links(s) == b.overlay_links(s));
        assert(a.overlay_links(s).contains_key(k));
    }
    assert forall|s: ScopeId, c: NodeId|
        !b.shared_links().contains_key(c) && !(#[trigger] b.registered(c).contains(
            s,
        )) implies untouched(b.shared_links(), b.overlay_links(s), c) by {
        assert(a.registered(c) == b.registered(c));
        assert(!a.registered(c).contains(s));
        assert(a.overlay_links(s) == b.overlay_links(s));
    }
}

proof fn same_base_captures<A: RoutingBase + ?Sized, B: RoutingBase + ?Sized>(
    forest: &ScopedForest,
    a: &A,
    b: &B,
)
    requires
        same_base(a, b),
        forest.captured_by(a),
    ensures
        forest.captured_by(b),
{
    assert forall|s: ScopeId| #[trigger] b.overlay_links(s) == forest.encoded(Some(s)) by {
        assert(a.overlay_links(s) == b.overlay_links(s));
    }
}

/// A stack of the one layer that the whole forest streamed into captures it.
proof fn a_lone_layer_captures(
    forest: &ScopedForest,
    l: &LayeredBase,
    opts: WriteOptions,
    sequence: u64,
)
    requires
        forest.wf(),
        forest.consistent(),
        l.wf(),
        l.stack().len() == 1,
        opened_from(&*l.stack()[0], streamed_blobs(forest.stream(true), opts, sequence)),
        registry_listing(registry_events(forest.stream(true))).len() <= usize::MAX,
    ensures
        forest.captured_by(l),
        valid_base(l),
        well_stacked(l),
        faithful_stack(l),
        opts.member_index ==> {
            &&& indexes_its_layers(l)
            &&& l.member_indexed()
            &&& valid_member_index(l)
        },
{
    let b = l.stack()[0];
    let events = forest.stream(true);
    let blobs = streamed_blobs(events, opts, sequence);
    let footer = choose|footer: Seq<u8>| #[trigger] written_as(&*b, blobs, footer);
    let t = collected_tables(events);
    let raw = registry_events(events);
    let entries = registry_listing(raw);
    assert(written_as(&*b, blobs, footer));
    assert(file_of(b.content(), t, entries, opts, sequence as i64, footer));
    compacted_file_serves_the_forest(forest, &*b, opts, sequence as i64, footer);
    assert(l.stack() =~= seq![b]);
    a_lone_base_is_a_stack(l, b);
    same_layers_capture(forest, l, &*b);
    registry_listing_lists(raw);
    empty_delta_registries(forest, true);
    written_base_is_served(&*b, t, entries, opts, sequence as i64, footer);
    served_registries_are_faithful(&*b, t, entries, sequence as i64);
    if opts.member_index {
        compacted_file_lists_the_forest(forest, &*b, opts, sequence as i64, footer);
        one_layer_fits(l);
        a_stack_of_indexes_is_valid(l);
    }
}

proof fn same_layers_capture(forest: &ScopedForest, l: &LayeredBase, b: &PuffinBase)
    requires
        forest.captured_by(b),
        l.shared_links() == b.shared_links(),
        forall|s: ScopeId| #[trigger] l.overlay_links(s) == b.overlay_links(s),
    ensures
        forest.captured_by(l),
{
    assert forall|s: ScopeId| #[trigger] l.overlay_links(s) == forest.encoded(Some(s)) by {
        assert(b.overlay_links(s) == forest.encoded(Some(s)));
    }
}

proof fn served_registries_are_faithful(
    b: &PuffinBase,
    t: SnapshotView,
    entries: Seq<(NodeId, ScopeId)>,
    seq: i64,
)
    requires
        serves_tables(b, t, entries, seq),
        registry_strict(entries),
    ensures
        faithful_registry(b),
{
}

/// Folds the whole forest into a new base layer and serves from it.
///
/// `publish` writes the blobs to a file and opens it; `widen` is the coercion
/// to a trait object. A failure to publish leaves the forest as it was.
pub fn fold_base<
    T,
    E,
    F: FnOnce(Vec<Blob>) -> Result<(Arc<PuffinBase>, T), E>,
    W: FnOnce(Arc<LayeredBase>) -> AnyBase,
>(
    forest: &mut ScopedForest,
    sequence: u64,
    opts: WriteOptions,
    path: String,
    publish: F,
    widen: W,
) -> (r: Result<(LocalLayers, T), E>)
    requires
        old(forest).wf(),
        forall|blobs: Vec<Blob>| #[trigger] publish.requires((blobs,)),
        forall|blobs: Vec<Blob>, p: (Arc<PuffinBase>, T)| #[trigger]
            publish.ensures((blobs,), Ok(p)) ==> opened_from(&*p.0, blob_views(blobs@)),
        forall|l: Arc<LayeredBase>| #[trigger] widen.requires((l,)),
        forall|l: Arc<LayeredBase>, d: AnyBase| #[trigger]
            widen.ensures((l,), d) && l.wf() ==> same_base(&*l, &*d.base),
    ensures
        final(forest).wf(),
        match r {
            Err(e) => {
                &&& final(forest).agrees(old(forest))
                &&& old(forest).consistent() ==> unpublished(
                    publish,
                    streamed_blobs(old(forest).stream(true), opts, sequence),
                    e,
                )
            },
            Ok((local, t)) => {
                &&& local.base_sequence == sequence
                &&& local.committed_through is None
                &&& local.paths@ == seq![path]
                &&& local.base.stack().len() == 1
                &&& final(forest).mem_is_fresh()
                &&& final(forest).indexed()
                &&& final(forest).serves(&*local.base)
                &&& final(forest).lists_members_as(&*local.base)
                &&& keeps_counters(old(forest), final(forest))
                &&& final(forest).fold_count() == counted(old(forest).fold_count(), 1)
                &&& old(forest).consistent() ==> {
                    &&& published(
                        publish,
                        streamed_blobs(old(forest).stream(true), opts, sequence),
                        local.base.stack()[0],
                        t,
                    )
                    &&& local.sound()
                    &&& opts.member_index ==> {
                        &&& indexes_its_layers(&*local.base)
                        &&& local.base.member_indexed()
                        &&& valid_member_index(&*local.base)
                        &&& final(forest).answers_members() == old(forest).tracking()
                        &&& final(forest).members_covered()
                    }
                    &&& final(forest).consistent()
                    &&& forall|s: ScopeId, x: NodeId| #[trigger]
                        final(forest).root_in(s, x) == old(forest).root_in(s, x)
                }
            },
        },
{
    let writer = BlobWriter::new(sequence, opts);
    let ghost before = *forest;
    let ghost start = writer;
    let ghost events = before.stream(true);
    let build = |w: BlobWriter| -> (out: Result<(Arc<dyn RoutingBase>, (Arc<LayeredBase>, T)), E>)
        requires
            w.wf(),
        ensures
            made(publish, w, out),
    {
        let blobs = w.finish();
        match publish(blobs) {
            Err(e) => Err(e),
            Ok((base, t)) => {
                let layered = Arc::new(LayeredBase::new(base));
                let wide = widen(layered.clone());
                let pair = (wide.base, (layered, t));
                Ok(pair)
            },
        }
    };
    let folded = forest.compact_and_fold(writer, build);
    match folded {
        Err(e) => {
            proof {
                let w = choose|w: BlobWriter| #[trigger]
                    fails_with(build, w, e) && w.setup() == start.setup() && (
                    before.consistent() ==> w.received() == start.received() + before.stream(
                        true,
                    ));
                if before.consistent() {
                    assert(w.received() =~= before.stream(true));
                }
            }
            Err(e)
        },
        Ok((base, t)) => {
            proof {
                let (w, p) = choose|w: BlobWriter, p: (Arc<dyn RoutingBase>, (Arc<LayeredBase>, T))|
                    #[trigger]
                    build.ensures((w,), Ok(p)) && p.1 == (base, t) && w.setup() == start.setup()
                        && forest.folded(&before, &*p.0) && (before.consistent() ==> w.received()
                        == start.received() + before.stream(true));
                assert(laid(publish, w, p));
                forest.served_by_either(&*base, &*p.0);
                same_base_lists_alike(forest, &*base, &*p.0);
                if before.consistent() {
                    assert(w.received() =~= before.stream(true));
                    a_lone_layer_captures(&before, &*base, opts, sequence);
                    same_base_is_valid(&*base, &*p.0);
                    same_base_captures(&before, &*base, &*p.0);
                }
            }
            let mut paths: Vec<String> = Vec::new();
            paths.push(path);
            assert(paths@ =~= seq![path]);
            Ok((LocalLayers { base, paths, base_sequence: sequence, committed_through: None }, t))
        },
    }
}

/// Folds what the memtable contributes into a delta layer over `current` and
/// serves from the longer stack. The base is appended to, never rewritten.
#[verifier::rlimit(40)]
pub fn fold_layer<
    T,
    E,
    F: FnOnce(Vec<Blob>) -> Result<(Arc<PuffinBase>, T), E>,
    W: FnOnce(Arc<LayeredBase>) -> AnyBase,
>(
    forest: &mut ScopedForest,
    current: &LocalLayers,
    sequence: u64,
    opts: WriteOptions,
    path: String,
    publish: F,
    widen: W,
) -> (r: Result<(LocalLayers, T), E>)
    requires
        old(forest).wf(),
        current.base.wf(),
        forall|blobs: Vec<Blob>| #[trigger] publish.requires((blobs,)),
        forall|blobs: Vec<Blob>, p: (Arc<PuffinBase>, T)| #[trigger]
            publish.ensures((blobs,), Ok(p)) ==> opened_from(&*p.0, blob_views(blobs@)),
        forall|l: Arc<LayeredBase>| #[trigger] widen.requires((l,)),
        forall|l: Arc<LayeredBase>, d: AnyBase| #[trigger]
            widen.ensures((l,), d) && l.wf() ==> same_base(&*l, &*d.base),
    ensures
        final(forest).wf(),
        match r {
            Err(e) => {
                &&& final(forest).agrees(old(forest))
                &&& old(forest).consistent() ==> unpublished(
                    publish,
                    streamed_blobs(old(forest).stream(false), opts, sequence),
                    e,
                )
            },
            Ok((local, t)) => {
                let depth = current.base.stack().len();
                &&& local.base_sequence == current.base_sequence
                &&& local.committed_through is None
                &&& text_views(local.paths@) == text_views(current.paths@).push(path@)
                &&& local.base.stack().len() == depth + 1
                &&& local.base.stack().take(depth as int) == current.base.stack()
                &&& final(forest).mem_is_fresh()
                &&& final(forest).indexed()
                &&& final(forest).serves(&*local.base)
                &&& final(forest).lists_members_as(&*local.base)
                &&& keeps_counters(old(forest), final(forest))
                &&& final(forest).fold_count() == counted(old(forest).fold_count(), 1)
                &&& old(forest).consistent() && current.sound() && old(forest).serves(
                    &*current.base,
                ) ==> {
                    &&& published(
                        publish,
                        streamed_blobs(old(forest).stream(false), opts, sequence),
                        local.base.stack()[depth as int],
                        t,
                    )
                    &&& local.sound()
                    &&& opts.member_index && indexes_its_layers(&*current.base)
                        ==> indexes_its_layers(&*local.base)
                    &&& final(forest).consistent()
                    &&& forall|s: ScopeId, x: NodeId| #[trigger]
                        final(forest).root_in(s, x) == old(forest).root_in(s, x)
                }
            },
        },
{
    let writer = BlobWriter::new(sequence, opts);
    let ghost before = *forest;
    let ghost start = writer;
    let under = current.base.clone();
    let build = |w: BlobWriter| -> (out: Result<(Arc<dyn RoutingBase>, (Arc<LayeredBase>, T)), E>)
        requires
            w.wf(),
        ensures
            made_over(&*under, publish, w, out),
    {
        let blobs = w.finish();
        match publish(blobs) {
            Err(e) => Err(e),
            Ok((base, t)) => {
                let layered = Arc::new(under.pushed(base));
                let wide = widen(layered.clone());
                let pair = (wide.base, (layered, t));
                Ok(pair)
            },
        }
    };
    let folded = forest.fold_delta(writer, build);
    match folded {
        Err(e) => {
            proof {
                let w = choose|w: BlobWriter| #[trigger]
                    fails_with(build, w, e) && w.setup() == start.setup() && (
                    before.consistent() ==> w.received() == start.received() + before.stream(
                        false,
                    ));
                if before.consistent() {
                    assert(w.received() =~= before.stream(false));
                }
            }
            Err(e)
        },
        Ok((base, t)) => {
            proof {
                let (w, p) = choose|w: BlobWriter, p: (Arc<dyn RoutingBase>, (Arc<LayeredBase>, T))|
                    #[trigger]
                    build.ensures((w,), Ok(p)) && p.1 == (base, t) && w.setup() == start.setup()
                        && forest.folded(&before, &*p.0) && (before.consistent() ==> w.received()
                        == start.received() + before.stream(false));
                assert(laid_over(&*under, publish, w, p));
                let depth = under.stack().len() as int;
                assert(base.stack().take(depth) =~= under.stack());
                forest.served_by_either(&*base, &*p.0);
                same_base_lists_alike(forest, &*base, &*p.0);
                if before.consistent() && current.sound() && before.serves(&*under) {
                    assert(w.received() =~= before.stream(false));
                    a_new_layer_captures(&before, &*under, &*base, opts, sequence);
                    same_base_is_valid(&*base, &*p.0);
                    same_base_captures(&before, &*base, &*p.0);
                }
            }
            let mut paths = clone_texts(&current.paths);
            let ghost kept = paths@;
            paths.push(path);
            assert(text_views(paths@) =~= text_views(kept).push(path@));
            let base_sequence: u64 = current.base_sequence;
            Ok((LocalLayers { base, paths, base_sequence, committed_through: None }, t))
        },
    }
}

/// `out` is `under` with one more layer of what `w` received, behind either
/// handle.
spec fn laid_over<T, E, F: FnOnce(Vec<Blob>) -> Result<(Arc<PuffinBase>, T), E>>(
    under: &LayeredBase,
    publish: F,
    w: BlobWriter,
    out: (Arc<dyn RoutingBase>, (Arc<LayeredBase>, T)),
) -> bool {
    let layered = out.1.0;
    let n = under.stack().len() as int;
    &&& layered.wf()
    &&& layered.stack() == under.stack().push(layered.stack()[n])
    &&& layered.stack().len() == n + 1
    &&& same_base(&*layered, &*out.0)
    &&& opened_from(&*layered.stack()[n], wrote(w))
    &&& published(publish, wrote(w), layered.stack()[n], out.1.1)
    &&& registry_listing(registry_events(w.received())).len() <= usize::MAX
}

spec fn made_over<T, E, F: FnOnce(Vec<Blob>) -> Result<(Arc<PuffinBase>, T), E>>(
    under: &LayeredBase,
    publish: F,
    w: BlobWriter,
    out: Result<(Arc<dyn RoutingBase>, (Arc<LayeredBase>, T)), E>,
) -> bool {
    match out {
        Ok(p) => laid_over(under, publish, w, p),
        Err(e) => unpublished(publish, wrote(w), e),
    }
}

/// A stack with the layer that the memtable streamed into captures the forest.
proof fn a_new_layer_captures(
    forest: &ScopedForest,
    under: &LayeredBase,
    l: &LayeredBase,
    opts: WriteOptions,
    sequence: u64,
)
    requires
        forest.wf(),
        forest.consistent(),
        forest.serves(under),
        under.wf(),
        well_stacked(under),
        faithful_stack(under),
        l.wf(),
        l.stack().len() == under.stack().len() + 1,
        l.stack() == under.stack().push(l.stack()[under.stack().len() as int]),
        opened_from(
            &*l.stack()[under.stack().len() as int],
            streamed_blobs(forest.stream(false), opts, sequence),
        ),
        registry_listing(registry_events(forest.stream(false))).len() <= usize::MAX,
    ensures
        forest.captured_by(l),
        valid_base(l),
        well_stacked(l),
        faithful_stack(l),
        opts.member_index && indexes_its_layers(under) ==> indexes_its_layers(l),
{
    let n = under.stack().len() as int;
    let d = l.stack()[n];
    let events = forest.stream(false);
    let blobs = streamed_blobs(events, opts, sequence);
    let footer = choose|footer: Seq<u8>| #[trigger] written_as(&*d, blobs, footer);
    let t = collected_tables(events);
    let raw = registry_events(events);
    let entries = registry_listing(raw);
    assert(written_as(&*d, blobs, footer));
    assert(file_of(d.content(), t, entries, opts, sequence as i64, footer));
    registry_listing_lists(raw);
    empty_delta_registries(forest, false);
    written_base_is_served(&*d, t, entries, opts, sequence as i64, footer);
    served_registries_are_faithful(&*d, t, entries, sequence as i64);
    a_pushed_delta_captures_the_forest(forest, under, d, l, sequence as i64);
    assert forall|i: int| 0 <= i < l.stack().len() implies faithful_registry(
        &*(#[trigger] l.stack()[i]),
    ) by {
        if i < n {
            assert(l.stack()[i] == under.stack()[i]);
            assert(faithful_registry(&*under.stack()[i]));
        }
    }
    if opts.member_index && indexes_its_layers(under) {
        forest.collecting_lists_the_stream(false);
        written_members_are_served(&*d, t, entries, opts, sequence as i64, footer);
        assert forall|i: int| 0 <= i < l.stack().len() implies indexes_its_tables(
            &*(#[trigger] l.stack()[i]),
        ) by {
            if i < n {
                assert(l.stack()[i] == under.stack()[i]);
                assert(indexes_its_tables(&*under.stack()[i]));
            }
        }
    }
}

/// Serves from `merged`, the compaction of the stack of `current` that was read
/// from storage while ingest kept running: the memtable stays.
pub fn adopt_merge<W: FnOnce(Arc<LayeredBase>) -> AnyBase>(
    forest: &mut ScopedForest,
    current: &LocalLayers,
    merged: Arc<PuffinBase>,
    sequence: u64,
    path: String,
    widen: W,
) -> (local: LocalLayers)
    requires
        old(forest).wf(),
        merged.wf(),
        forall|l: Arc<LayeredBase>| #[trigger] widen.requires((l,)),
        forall|l: Arc<LayeredBase>, d: AnyBase| #[trigger]
            widen.ensures((l,), d) && l.wf() ==> same_base(&*l, &*d.base),
    ensures
        final(forest).wf(),
        old(forest).indexed() ==> final(forest).indexed(),
        final(forest).serves(&*local.base),
        final(forest).lists_members_as(&*local.base),
        keeps_counters(old(forest), final(forest)),
        final(forest).fold_count() == old(forest).fold_count(),
        final(forest).mem_shared() == old(forest).mem_shared(),
        forall|s: ScopeId| #[trigger]
            final(forest).mem_overlay(s) == old(forest).mem_overlay(s),
        local.base.stack() == seq![merged],
        local.base_sequence == sequence,
        local.committed_through == Some(sequence),
        local.paths@ == seq![path],
        old(forest).consistent() && current.sound() && old(forest).serves(&*current.base)
            && merge_of(&*merged, &*current.base, sequence) ==> {
            &&& local.sound()
            &&& final(forest).consistent()
            &&& forall|s: ScopeId, x: NodeId| #[trigger]
                final(forest).root_in(s, x) == old(forest).root_in(s, x)
        },
{
    let ghost before = *forest;
    let base = Arc::new(LayeredBase::new(merged));
    let wide = widen(base.clone());
    let attached = Some(wide.base);
    forest.install(attached);
    proof {
        forest.served_by_either(&*base, &*wide.base);
        same_base_lists_alike(forest, &*base, &*wide.base);
        if before.consistent() && current.sound() && before.serves(&*current.base) && merge_of(
            &*merged,
            &*current.base,
            sequence,
        ) {
            let l = &*current.base;
            before.served(l);
            let footer = choose|footer: Seq<u8>| #[trigger]
                written_as(&*merged, compacted_blobs(l, sequence), footer);
            a_compacted_stack_answers_alike(l, &*merged, sequence as i64, footer);
            a_lone_base_is_a_stack(&*base, merged);
            same_base_is_valid(&*base, &*wide.base);
            assert forall|s: ScopeId| #[trigger] wide.base.overlay_links(s)
                == before.base_overlay(s) by {
                assert(base.overlay_links(s) == wide.base.overlay_links(s));
                assert(base.overlay_links(s) == merged.overlay_links(s));
                assert(merged.overlay_links(s) == l.overlay_links(s));
            }
            assert(before.base_resolves_like(&*wide.base));
        }
    }
    let mut paths: Vec<String> = Vec::new();
    paths.push(path);
    assert(paths@ =~= seq![path]);
    LocalLayers { base, paths, base_sequence: sequence, committed_through: Some(sequence) }
}

/// The blobs that compacting the stack `l` gives.
pub open spec fn compacted_blobs(l: &LayeredBase, sequence: u64) -> Seq<BlobView> {
    base_blobs(compacted_tables(l), compacted_registry(l), compact_options(), sequence as i64)
}

/// `b` was opened from a file of the stack `l` compacted.
pub open spec fn merge_of(b: &PuffinBase, l: &LayeredBase, sequence: u64) -> bool {
    opened_from(b, compacted_blobs(l, sequence)) && compacted_registry(l).len() <= usize::MAX
}

/// The blobs that finishing `w` gives.
pub open spec fn wrote(w: BlobWriter) -> Seq<BlobView> {
    base_blobs(
        collected_tables(w.received()),
        registry_listing(registry_events(w.received())),
        w.opts(),
        w.sequence(),
    )
}

// --- what a commit covers ----------------------------------------------------------------

/// **A commit reaches as far as its segments, and no further**: in each partition
/// as far as it stood before and as far as each segment goes, and only to one of
/// these.
pub proof fn a_commit_reaches_as_far_as_its_segments(
    start: Map<PartitionId, u64>,
    segments: Seq<SegmentView>,
    p: PartitionId,
)
    ensures
        ({
            let r = reached(start, segments);
            &&& start.contains_key(p) ==> r.contains_key(p) && r[p] >= start[p]
            &&& forall|i: int|
                0 <= i < segments.len() && (#[trigger] segments[i]).last.contains_key(p)
                    ==> r.contains_key(p) && r[p] >= segments[i].last[p]
            &&& r.contains_key(p) ==> {
                ||| start.contains_key(p) && r[p] == start[p]
                ||| exists|i: int|
                    0 <= i < segments.len() && (#[trigger] segments[i]).last.contains_key(p) && r[p]
                        == segments[i].last[p]
            }
        }),
    decreases segments.len(),
{
    if segments.len() > 0 {
        let front = segments.drop_last();
        let last = segments.last();
        let mid = reached(start, front);
        let r = reached(start, segments);
        a_commit_reaches_as_far_as_its_segments(start, front, p);
        a_position_holds_the_highest_offset(mid, last.last, p, 0, p);
        assert forall|i: int|
            0 <= i < segments.len() && (#[trigger] segments[i]).last.contains_key(p) implies
            r.contains_key(p) && r[p] >= segments[i].last[p] by {
            if i < front.len() {
                assert(front[i] == segments[i]);
            }
        }
        if r.contains_key(p) {
            if last.last.contains_key(p) && r[p] == last.last[p] {
                assert(segments[segments.len() - 1].last.contains_key(p));
            } else {
                assert(mid.contains_key(p) && r[p] == mid[p]);
                if !(start.contains_key(p) && mid[p] == start[p]) {
                    let i = choose|i: int|
                        0 <= i < front.len() && (#[trigger] front[i]).last.contains_key(p)
                            && mid[p] == front[i].last[p];
                    assert(segments[i].last.contains_key(p));
                }
            }
        }
    }
}

/// **A data file says the lowest offset it holds**: none of its segments starts a
/// partition lower, and one of them starts there; zero where none has any of it.
pub proof fn a_data_file_says_its_lowest_offset(segments: Seq<SegmentView>, p: PartitionId)
    ensures
        forall|i: int|
            0 <= i < segments.len() && (#[trigger] segments[i]).first.contains_key(p)
                && segments[i].first[p] > 0 ==> 0 < lowest(segments, p) <= segments[i].first[p],
        lowest(segments, p) > 0 ==> exists|i: int|
            0 <= i < segments.len() && (#[trigger] segments[i]).first.contains_key(p)
                && segments[i].first[p] == lowest(segments, p),
    decreases segments.len(),
{
    if segments.len() > 0 {
        let front = segments.drop_last();
        let n = segments.len() - 1;
        a_data_file_says_its_lowest_offset(front, p);
        let before = lowest(front, p);
        assert forall|i: int|
            0 <= i < segments.len() && (#[trigger] segments[i]).first.contains_key(p)
                && segments[i].first[p] > 0 implies 0 < lowest(segments, p)
            <= segments[i].first[p] by {
            if i < n {
                assert(front[i] == segments[i]);
            }
        }
        if lowest(segments, p) > 0 {
            if lowest(segments, p) == applied(segments[n].first, p) {
                assert(segments[n].first.contains_key(p));
            } else {
                let i = choose|i: int|
                    0 <= i < front.len() && (#[trigger] front[i]).first.contains_key(p)
                        && front[i].first[p] == before;
                assert(segments[i].first.contains_key(p));
            }
        }
    }
}

/// **A layer stands on its base**: a full base on itself, a delta on the base it
/// names; and a worker goes on from where the latest snapshot stands, from
/// nothing where there is none.
pub proof fn a_layer_stands_on_its_base(base_sequence: u64, sequence: u64, m: &SnapshotMeta)
    ensures
        base_under(Layer::Base, sequence) == sequence,
        base_under(Layer::Delta { base_sequence }, sequence) == base_sequence,
        committed_at(Some(m)) == m.stands_at(),
        committed_at(None) == Map::<PartitionId, u64>::empty(),
{
}

/// **A chain is compacted once it has its layers**: on a disk tier, where the
/// stack is as deep as the limit.
pub proof fn a_chain_is_compacted_at_its_limit(
    disk: bool,
    local: Option<&LocalLayers>,
    max_delta_layers: usize,
)
    ensures
        !disk ==> !chain_is_long(disk, local, max_delta_layers),
        local is None ==> !chain_is_long(disk, local, max_delta_layers),
        disk && local is Some ==> (chain_is_long(disk, local, max_delta_layers)
            <==> local->Some_0.base.stack().len() >= max_delta_layers),
{
}

/// **Only a leader commits, and it commits what is pending**: a follower folds for
/// itself, and a leader rests only where nothing waits.
pub proof fn only_a_leader_commits(
    leader: bool,
    disk: bool,
    local: Option<&LocalLayers>,
    max_delta_layers: usize,
    pending: usize,
    p: TickPlan,
)
    requires
        call_ensures(plan_tick, (leader, disk, local, max_delta_layers, pending), p),
    ensures
        p is Commit || p is CompactChain || p is Idle ==> leader,
        p is FoldLocally ==> !leader,
        p is Commit ==> pending > 0,
        p is Idle ==> pending == 0,
        leader && pending > 0 && (!disk || local is None) ==> p is Commit,
        p is CompactChain ==> disk && local is Some && local->Some_0.base.stack().len()
            >= max_delta_layers,
{
}

/// **A delta is only laid on what the catalog knows**: on a disk tier, over a newest
/// layer that was committed, within the depth allowed; and a fold that is forced
/// is never skipped where there is a disk tier.
pub proof fn a_delta_is_laid_on_what_is_committed(
    disk: bool,
    force: bool,
    links: u64,
    fold_after_links: u64,
    local: Option<&LocalLayers>,
    max_delta_layers: usize,
    p: FoldPlan,
)
    requires
        call_ensures(plan_fold, (disk, force, links, fold_after_links, local, max_delta_layers), p),
    ensures
        p is Delta ==> disk && local is Some && local->Some_0.committed_through is Some
            && local->Some_0.base.stack().len() < max_delta_layers,
        disk && force ==> !(p is Skip),
        disk && links >= fold_after_links ==> !(p is Skip),
        !disk ==> p is Skip,
        !force && links < fold_after_links ==> p is Skip,
        p is Base ==> local is None || local->Some_0.committed_through is None
            || local->Some_0.base.stack().len() >= max_delta_layers,
{
}

/// **Sequences are consecutive from one on**, and a tick that published its merge is
/// over.
pub proof fn sequences_are_consecutive(
    m: SnapshotMeta,
    first: u64,
    next: u64,
    published: bool,
    pending: usize,
    p: TickPlan,
)
    requires
        m.sequence < u64::MAX,
        call_ensures(next_sequence, (None::<&SnapshotMeta>,), first),
        call_ensures(next_sequence, (Some(&m),), next),
        call_ensures(plan_after_compaction, (published, pending), p),
    ensures
        first == 1,
        next == m.sequence + 1,
        published ==> p is Idle,
        !published && pending > 0 ==> p is Commit,
        !published && pending == 0 ==> p is Idle,
{
}

/// **A commit says where the stream stands and what it stands on**: its own
/// sequence and moment, its position, its one data file, and a chain from its base
/// up to itself.
pub proof fn a_commit_says_where_it_stands(
    sequence: u64,
    now_ms: i64,
    position: StreamPosition,
    stream: Option<StreamId>,
    file: DataFileMeta,
    puffin_path: String,
    committer: String,
    layer: Layer,
    m: SnapshotMeta,
    p: PartitionId,
)
    requires
        base_under(layer, sequence) <= sequence,
        position@.dom().finite(),
        call_ensures(
            batch_meta,
            (sequence, now_ms, position, stream, file, puffin_path, committer, layer),
            m,
        ),
    ensures
        m.sequence == sequence && m.committed_at_ms == now_ms && m.stream == stream,
        applied(m.stands_at(), p) == applied(position@, p),
        m.data_files@.len() == 1 && m.data_files@[0] == file,
        m.puffin_path == puffin_path && m.committer == committer,
        layer is Base ==> m.base_sequence == sequence && m.delta_chain_len == 0,
        layer matches Layer::Delta { base_sequence } ==> m.base_sequence == base_sequence
            && m.delta_chain_len == sequence - base_sequence,
        m.is_chain(),
{
    if position@.dom().len() == 0 {
        assert(position@.dom() =~= Set::empty());
        assert(position@ =~= Map::empty());
    }
}

/// **A published merge stands where the snapshot before it stood**, holds no data
/// and is its own base.
pub proof fn a_published_merge_moves_no_position(
    sequence: u64,
    now_ms: i64,
    latest: SnapshotMeta,
    stream: Option<StreamId>,
    puffin_path: String,
    committer: String,
    m: SnapshotMeta,
)
    requires
        call_ensures(
            compaction_meta,
            (sequence, now_ms, Some(&latest), stream, puffin_path, committer),
            m,
        ),
    ensures
        m.position@ == latest.stands_at(),
        m.data_files@.len() == 0,
        m.sequence == sequence && m.base_sequence == sequence && m.delta_chain_len == 0,
        m.committed_at_ms == now_ms && m.stream == stream,
        m.is_chain(),
{
}

/// **A data file says what it holds**: its path and size, as many rows as its
/// segments have, and offsets from the lowest to the highest of them.
pub proof fn a_data_file_says_what_it_holds(
    path: String,
    bytes: u64,
    segments: Vec<Segment>,
    f: DataFileMeta,
    i: int,
    p: PartitionId,
)
    requires
        call_ensures(data_file, (path, bytes, &segments), f),
        0 <= i < segments@.len(),
    ensures
        f.path == path && f.bytes == bytes,
        f.rows == row_total(segment_views(segments@)),
        segments@[i].last@.contains_key(p) ==> f.last_position@.contains_key(p)
            && f.last_position@[p] >= segments@[i].last@[p],
        f.last_position@.contains_key(p) && segments@[i].first@.contains_key(p)
            && segments@[i].first@[p] > 0 ==> f.first_position@.contains_key(p)
            && f.first_position@[p] <= segments@[i].first@[p],
{
    let all = segment_views(segments@);
    assert(all[i] == segments@[i]@);
    a_commit_reaches_as_far_as_its_segments(Map::empty(), all, p);
    a_data_file_says_its_lowest_offset(all, p);
    assert(all[i].first == segments@[i].first@);
    if all[i].first.contains_key(p) && all[i].first[p] > 0 {
        assert(0 < lowest(all, p) <= all[i].first[p]);
        assert(f.first_position@.contains_key(p) <==> f.last_position@.contains_key(p));
        if f.first_position@.contains_key(p) {
            assert(f.first_position@[p] == lowest(all, p));
        }
    }
}

/// **A commit that was refused costs nothing**: the buffer and the layers stay as
/// they were. One that was taken drops no segment that it does not cover, and marks
/// the layers committed through its sequence.
pub proof fn a_refused_commit_costs_nothing(
    buffer: &mut EdgeBuffer,
    local: &mut Option<LocalLayers>,
    outcome: CommitOutcome,
    sequence: u64,
    position: StreamPosition,
    dropped: usize,
    i: int,
    p: PartitionId,
)
    requires
        call_ensures(settle_commit, (buffer, local, outcome, sequence, &position), dropped),
        0 <= i < old(buffer)@.sealed.len(),
        old(buffer)@.sealed[i].last.contains_key(p),
        old(buffer)@.sealed[i].last[p] > 0,
        !position@.contains_key(p) || position@[p] < old(buffer)@.sealed[i].last[p],
    ensures
        outcome is Conflict ==> dropped == 0 && final(buffer)@ == old(buffer)@ && *final(local)
            == *old(local),
        final(buffer)@.sealed.contains(old(buffer)@.sealed[i]),
        final(buffer)@.active == old(buffer)@.active,
        outcome is Committed && *old(local) is Some ==> *final(local) is Some
            && (*final(local))->Some_0.committed_through == Some(sequence)
            && (*final(local))->Some_0.base == (*old(local))->Some_0.base,
{
    let all = buffer@.sealed;
    assert(all[i].last.contains_key(p));
    a_segment_past_a_commit_stays(all, position@, i, p);
}

/// **A tick drops only what the catalog covers**, and nothing where the catalog
/// holds nothing.
pub proof fn a_tick_drops_only_what_is_committed(
    buffer: &mut EdgeBuffer,
    empty: &mut EdgeBuffer,
    latest: SnapshotMeta,
    dropped: usize,
    none: usize,
    i: int,
    p: PartitionId,
)
    requires
        call_ensures(prune_covered, (buffer, Some(&latest)), dropped),
        call_ensures(prune_covered, (empty, None::<&SnapshotMeta>), none),
        0 <= i < old(buffer)@.sealed.len(),
        old(buffer)@.sealed[i].last.contains_key(p),
        old(buffer)@.sealed[i].last[p] > applied(latest.stands_at(), p),
    ensures
        final(buffer)@.sealed.contains(old(buffer)@.sealed[i]),
        final(buffer)@.active == old(buffer)@.active,
        final(empty)@ == old(empty)@,
        none == 0,
{
    a_segment_past_a_commit_stays(buffer@.sealed, latest.stands_at(), i, p);
}

proof fn a_segment_past_a_commit_stays(
    all: Seq<SegmentView>,
    committed: Map<PartitionId, u64>,
    i: int,
    p: PartitionId,
)
    requires
        0 <= i < all.len(),
        all[i].last.contains_key(p),
        all[i].last[p] > applied(committed, p),
    ensures
        undurable(all, committed).contains(all[i]),
        all.contains(all[i]),
{
    let a = all.take(i);
    let one = seq![all[i]];
    let b = all.skip(i + 1);
    assert(all =~= (a + one) + b);
    crate::ingest::buffer::a_commit_drops_what_it_covers(a + one, b, all[i], committed);
    crate::ingest::buffer::a_commit_drops_what_it_covers(a, one, all[i], committed);
    assert(undurable(one, committed) == one);
    assert(undurable(all, committed)[undurable(a, committed).len() as int] == all[i]);
}

/// **A batch is committed as far as it reaches**: in each partition at least as far
/// as the snapshot before it and as each of its segments.
pub proof fn a_batch_is_committed_as_far_as_it_reaches(
    latest: SnapshotMeta,
    segments: Vec<Segment>,
    position: StreamPosition,
    i: int,
    p: PartitionId,
)
    requires
        call_ensures(batch_position, (Some(&latest), &segments), position),
        0 <= i < segments@.len(),
    ensures
        applied(position@, p) >= applied(latest.stands_at(), p),
        applied(position@, p) >= applied(segments@[i].last@, p),
{
    let all = segment_views(segments@);
    assert(all[i] == segments@[i]@);
    a_commit_reaches_as_far_as_its_segments(latest.stands_at(), all, p);
}

/// **A fold is stalled past five seconds**, and a file says who wrote it and how far
/// its stream had come.
pub proof fn a_fold_is_stalled_past_five_seconds(
    ms: u64,
    long: bool,
    watermark: u64,
    properties: Vec<(String, String)>,
)
    requires
        call_ensures(stalled_long, (ms,), long),
        call_ensures(puffin_metadata, (watermark,), properties),
    ensures
        long <==> ms > 5_000,
        properties@.len() == 2,
        properties@[0].0@ == "created-by"@ && properties@[0].1@ == "blaze"@,
        properties@[1].0@ == "watermark"@ && properties@[1].1@ == decimal(watermark as nat),
{
    let v = properties_view(properties@);
    assert(v.len() == 2);
    assert(v[0] == ("created-by"@, "blaze"@));
    assert(v[1] == ("watermark"@, decimal(watermark as nat)));
}

} // verus!
