//! Edge buffering.
//!
//! Incoming edges append to an active buffer, one row per visible scope, so a
//! reader of the data file can prune by scope. On every flush tick the active
//! buffer rotates into a *sealed segment* tagged with the offset range it
//! covers. Sealed segments are what the leader persists; followers drop them
//! once the committed position covers them, so a failover never loses or
//! double-writes data.

use arrow_array::{UInt32Array, UInt64Array};
use arrow_ord::sort::{lexsort_to_indices, SortColumn};
use std::sync::Arc;
use vstd::prelude::*;

use super::batch::rows_memory;
use crate::graph::stream::{advanced, applied, covers, PartitionId, StreamPosition};
use crate::graph::types::{EdgeEvent, NodeId, ScopeId, GLOBAL_SCOPE};

verus! {

/// One row of the edge table.
#[derive(Debug)]
pub struct Row {
    pub partition: PartitionId,
    pub offset: u64,
    pub src: NodeId,
    pub dst: NodeId,
    pub scope: ScopeId,
    pub event_time_ms: i64,
    pub props: Option<String>,
}

/// What a [`Row`] says.
#[verifier::ext_equal]
pub ghost struct RowView {
    pub partition: PartitionId,
    pub offset: u64,
    pub src: NodeId,
    pub dst: NodeId,
    pub scope: ScopeId,
    pub event_time_ms: i64,
    pub props: Option<Seq<char>>,
}

pub open spec fn text_of(s: Option<String>) -> Option<Seq<char>> {
    match s {
        Some(t) => Some(t@),
        None => None,
    }
}

impl View for Row {
    type V = RowView;

    open spec fn view(&self) -> RowView {
        RowView {
            partition: self.partition,
            offset: self.offset,
            src: self.src,
            dst: self.dst,
            scope: self.scope,
            event_time_ms: self.event_time_ms,
            props: text_of(self.props),
        }
    }
}

impl Clone for Row {
    fn clone(&self) -> (r: Row)
        ensures
            r@ == self@,
    {
        Row {
            partition: self.partition,
            offset: self.offset,
            src: self.src,
            dst: self.dst,
            scope: self.scope,
            event_time_ms: self.event_time_ms,
            props: match &self.props {
                Some(p) => Some(p.clone()),
                None => None,
            },
        }
    }
}

pub open spec fn row_views(rows: Seq<Row>) -> Seq<RowView> {
    rows.map_values(|r: Row| r@)
}

/// An immutable, flush-ready chunk of buffered edges.
#[derive(Debug)]
pub struct Segment {
    pub rows: Arc<Vec<Row>>,
    /// Lowest offset this segment holds per partition.
    pub first: StreamPosition,
    /// Highest offset this segment holds per partition: the position a
    /// committed snapshot must **dominate** before the segment is durable.
    pub last: StreamPosition,
}

/// What a [`Segment`] holds.
#[verifier::ext_equal]
pub ghost struct SegmentView {
    pub rows: Seq<RowView>,
    pub first: Map<PartitionId, u64>,
    pub last: Map<PartitionId, u64>,
}

impl View for Segment {
    type V = SegmentView;

    open spec fn view(&self) -> SegmentView {
        SegmentView { rows: row_views(self.rows@), first: self.first@, last: self.last@ }
    }
}

impl Clone for Segment {
    fn clone(&self) -> (s: Segment)
        ensures
            s@ == self@,
    {
        Segment { rows: self.rows.clone(), first: self.first.clone(), last: self.last.clone() }
    }
}

pub open spec fn segment_views(segments: Seq<Segment>) -> Seq<SegmentView> {
    segments.map_values(|s: Segment| s@)
}

/// What an [`EdgeBuffer`] holds.
#[verifier::ext_equal]
pub ghost struct BufferView {
    pub active: Seq<RowView>,
    pub first: Map<PartitionId, u64>,
    pub last: Map<PartitionId, u64>,
    pub sealed: Seq<SegmentView>,
}

/// The scopes an event has a row for: its audience, or the global scope.
pub open spec fn row_scopes(event: EdgeEvent) -> Seq<ScopeId> {
    match event.visibility.audience() {
        None => seq![GLOBAL_SCOPE],
        Some(scopes) => scopes,
    }
}

/// The rows of one event.
pub open spec fn rows_of(partition: PartitionId, offset: u64, event: EdgeEvent) -> Seq<RowView> {
    row_scopes(event).map_values(
        |scope: ScopeId|
            RowView {
                partition,
                offset,
                src: event.src,
                dst: event.dst,
                scope,
                event_time_ms: event.event_time_ms,
                props: text_of(event.props),
            },
    )
}

/// `first` after an event: offsets are one-based, so zero means that this
/// partition has not contributed yet.
pub open spec fn first_after(
    first: Map<PartitionId, u64>,
    partition: PartitionId,
    offset: u64,
) -> Map<PartitionId, u64> {
    if applied(first, partition) == 0 {
        advanced(first, partition, offset)
    } else {
        first
    }
}

/// `b` with one event appended.
pub open spec fn appended(
    b: BufferView,
    partition: PartitionId,
    offset: u64,
    event: EdgeEvent,
) -> BufferView {
    BufferView {
        active: b.active + rows_of(partition, offset, event),
        first: first_after(b.first, partition, offset),
        last: advanced(b.last, partition, offset),
        sealed: b.sealed,
    }
}

/// Rows in `(scope, src)` order, so that row groups cluster per tenant.
pub open spec fn clustered(rows: Seq<RowView>) -> bool {
    forall|i: int, j: int|
        0 <= i < j < rows.len() ==> cluster_le(#[trigger] rows[i], #[trigger] rows[j])
}

pub open spec fn cluster_le(a: RowView, b: RowView) -> bool {
    a.scope < b.scope || (a.scope == b.scope && a.src <= b.src)
}

/// `arrow_ord::sort::lexsort_to_indices` over a column of scopes and a column
/// of sources: the row numbers, each once, in ascending `(scope, src)` order.
/// Rows that are equal in both may come in any order.
#[verifier::external_body]
fn lexsort_rows(scopes: Vec<u32>, srcs: Vec<u64>) -> (order: Vec<u32>)
    requires
        scopes@.len() == srcs@.len(),
        scopes@.len() <= u32::MAX,
    ensures
        order@.len() == scopes@.len(),
        order@.no_duplicates(),
        forall|i: int| 0 <= i < order@.len() ==> #[trigger] order@[i] < order@.len(),
        forall|i: int, j: int|
            0 <= i < j < order@.len() ==> {
                let a = #[trigger] order@[i] as int;
                let b = #[trigger] order@[j] as int;
                scopes@[a] < scopes@[b] || (scopes@[a] == scopes@[b] && srcs@[a] <= srcs@[b])
            },
{
    let columns = vec![
        SortColumn { values: Arc::new(UInt32Array::from(scopes)), options: None },
        SortColumn { values: Arc::new(UInt64Array::from(srcs)), options: None },
    ];
    let order = lexsort_to_indices(&columns, None).expect("columns of one length");
    order.values().to_vec()
}

#[derive(Debug, Clone, Copy, PartialEq, Eq, Structural)]
pub struct BufferStats {
    pub active_rows: usize,
    pub sealed_rows: usize,
    pub sealed_segments: usize,
    pub sealed_bytes: usize,
}

pub struct EdgeBuffer {
    active: Vec<Row>,
    /// Lowest and highest offset seen per partition. Both are needed: the
    /// highest decides durability, the lowest is what a data file advertises.
    first: StreamPosition,
    last: StreamPosition,
    sealed: Vec<Segment>,
}

impl View for EdgeBuffer {
    type V = BufferView;

    closed spec fn view(&self) -> BufferView {
        BufferView {
            active: row_views(self.active@),
            first: self.first@,
            last: self.last@,
            sealed: segment_views(self.sealed@),
        }
    }
}

/// A buffer without rows.
pub open spec fn empty_buffer() -> BufferView {
    BufferView {
        active: Seq::empty(),
        first: Map::empty(),
        last: Map::empty(),
        sealed: Seq::empty(),
    }
}

impl Default for EdgeBuffer {
    fn default() -> (b: EdgeBuffer)
        ensures
            b@ == empty_buffer(),
    {
        let b = EdgeBuffer {
            active: Vec::new(),
            first: StreamPosition::new(),
            last: StreamPosition::new(),
            sealed: Vec::new(),
        };
        assert(b@ =~= empty_buffer());
        b
    }
}

/// `s` holds the active rows of `b`, in `(scope, src)` order, and their span.
/// Rows that are equal in both may come in any order.
pub open spec fn seals(b: BufferView, s: SegmentView) -> bool {
    &&& s.rows.to_multiset() == b.active.to_multiset()
    &&& s.rows.len() == b.active.len()
    &&& clustered(s.rows)
    &&& s.first == b.first
    &&& s.last == b.last
}

/// `b` with its active rows rotated into `s`.
pub open spec fn rotated(b: BufferView, s: SegmentView) -> BufferView {
    BufferView { sealed: b.sealed.push(s), ..empty_buffer() }
}

/// Whether sealing `b` gives `after`.
pub open spec fn sealed_to(b: BufferView, after: BufferView) -> bool {
    if b.active.len() == 0 {
        after == b
    } else {
        after.sealed.len() == b.sealed.len() + 1 && seals(b, after.sealed.last()) && after
            == rotated(b, after.sealed.last())
    }
}

/// Rows of all `segments` together, modulo the counter's width.
pub open spec fn row_total(segments: Seq<SegmentView>) -> usize
    decreases segments.len(),
{
    if segments.len() == 0 {
        0
    } else {
        row_total(segments.drop_last()).wrapping_add(segments.last().rows.len() as usize)
    }
}

/// The segments that `committed` does not cover.
pub open spec fn undurable(
    segments: Seq<SegmentView>,
    committed: Map<PartitionId, u64>,
) -> Seq<SegmentView>
    decreases segments.len(),
{
    if segments.len() == 0 {
        Seq::empty()
    } else {
        let before = undurable(segments.drop_last(), committed);
        if covers(committed, segments.last().last) {
            before
        } else {
            before.push(segments.last())
        }
    }
}

impl EdgeBuffer {
    pub fn new() -> (b: EdgeBuffer)
        ensures
            b@ == empty_buffer(),
    {
        EdgeBuffer::default()
    }

    /// Appends one event at its position in the stream, exploding multi-scope
    /// visibility into one row per scope (global: a single row, scope 0).
    pub fn append(&mut self, partition: PartitionId, offset: u64, event: &EdgeEvent)
        ensures
            final(self)@ == appended(old(self)@, partition, offset, *event),
    {
        let ghost before = self@;
        if self.first.get(partition) == 0 {
            self.first.advance(partition, offset);
        }
        self.last.advance(partition, offset);
        let scopes: Vec<ScopeId> = match event.visibility.scopes() {
            None => {
                let mut one: Vec<ScopeId> = Vec::new();
                one.push(GLOBAL_SCOPE);
                assert(one@ =~= seq![GLOBAL_SCOPE]);
                one
            },
            Some(s) => s,
        };
        assert(scopes@ == row_scopes(*event));
        let ghost rows = rows_of(partition, offset, *event);
        let ghost active = row_views(self.active@);
        let mut i: usize = 0;
        assert(active =~= active + rows.take(0));
        while i < scopes.len()
            invariant
                i <= scopes.len(),
                scopes@ == row_scopes(*event),
                rows == rows_of(partition, offset, *event),
                row_views(self.active@) == active + rows.take(i as int),
                self.first@ == first_after(before.first, partition, offset),
                self.last@ == advanced(before.last, partition, offset),
                segment_views(self.sealed@) == before.sealed,
            decreases scopes.len() - i,
        {
            let ghost was = self.active@;
            let row = Row {
                partition,
                offset,
                src: event.src,
                dst: event.dst,
                scope: scopes[i],
                event_time_ms: event.event_time_ms,
                props: match &event.props {
                    Some(p) => Some(p.clone()),
                    None => None,
                },
            };
            self.active.push(row);
            proof {
                assert(row@ =~= rows[i as int]);
                assert(row_views(self.active@) =~= row_views(was).push(row@));
                assert(rows.take(i + 1) =~= rows.take(i as int).push(rows[i as int]));
                assert(row_views(self.active@) =~= active + rows.take(i + 1));
            }
            i += 1;
        }
        assert(rows.take(i as int) =~= rows);
        assert(self@ =~= appended(before, partition, offset, *event));
    }

    /// Rows that are not sealed yet.
    pub fn active_rows(&self) -> (n: usize)
        ensures
            n == self@.active.len(),
    {
        self.active.len()
    }

    /// Rotates the active buffer into a sealed segment, its rows in
    /// `(scope, src)` order. `None` when there is nothing to seal.
    pub fn seal_active(&mut self) -> (r: Option<Segment>)
        requires
            old(self)@.active.len() <= u32::MAX,
        ensures
            match r {
                None => old(self)@.active.len() == 0 && final(self)@ == old(self)@,
                Some(s) => {
                    &&& old(self)@.active.len() > 0
                    &&& seals(old(self)@, s@)
                    &&& final(self)@ == rotated(old(self)@, s@)
                },
            },
    {
        if self.active.len() == 0 {
            return None;
        }
        let ghost before = self@;
        let rows = sort_rows(&self.active);
        let first = self.first.clone();
        let last = self.last.clone();
        let segment = Segment { rows: Arc::new(rows), first, last };
        self.active = Vec::new();
        self.first = StreamPosition::new();
        self.last = StreamPosition::new();
        let ghost sealed = self.sealed@;
        self.sealed.push(segment.clone());
        proof {
            assert(segment_views(self.sealed@) =~= segment_views(sealed).push(segment@));
            assert(self@ =~= (BufferView { sealed: before.sealed.push(segment@), ..empty_buffer() }));
        }
        Some(segment)
    }

    /// Sealed segments currently pending persistence.
    pub fn sealed_segments(&self) -> (v: Vec<Segment>)
        ensures
            segment_views(v@) == self@.sealed,
    {
        let mut v: Vec<Segment> = Vec::new();
        let ghost all = self@.sealed;
        let mut i: usize = 0;
        assert(segment_views(v@) =~= all.take(0));
        while i < self.sealed.len()
            invariant
                i <= self.sealed.len(),
                all == segment_views(self.sealed@),
                segment_views(v@) == all.take(i as int),
            decreases self.sealed.len() - i,
        {
            let ghost was = v@;
            let s = self.sealed[i].clone();
            v.push(s);
            proof {
                assert(s@ == all[i as int]);
                assert(segment_views(v@) =~= segment_views(was).push(s@));
                assert(segment_views(v@) =~= all.take(i + 1));
            }
            i += 1;
        }
        assert(all.take(i as int) =~= all);
        v
    }

    /// Drops the sealed segments that the committed position fully covers, and
    /// says how many. Called by followers when they observe a new snapshot,
    /// and by the leader after a successful commit.
    ///
    /// **Dominance, not a comparison.** A segment spanning partitions 0 and 3
    /// is durable only when *both* are committed.
    pub fn drop_committed(&mut self, committed: &StreamPosition) -> (n: usize)
        ensures
            final(self)@ == (BufferView {
                sealed: undurable(old(self)@.sealed, committed@),
                ..old(self)@
            }),
            n == old(self)@.sealed.len() - final(self)@.sealed.len(),
    {
        let ghost before = self@;
        let ghost all = self@.sealed;
        let mut kept: Vec<Segment> = Vec::new();
        let mut i: usize = 0;
        assert(segment_views(kept@) =~= undurable(all.take(0), committed@));
        while i < self.sealed.len()
            invariant
                i <= self.sealed.len(),
                self@ == before,
                all == segment_views(self.sealed@),
                segment_views(kept@) == undurable(all.take(i as int), committed@),
                kept@.len() <= i,
            decreases self.sealed.len() - i,
        {
            let ghost was = kept@;
            assert(all.take(i + 1).drop_last() =~= all.take(i as int));
            assert(all.take(i + 1).last() == self.sealed@[i as int]@);
            if !committed.dominates(&self.sealed[i].last) {
                let s = self.sealed[i].clone();
                kept.push(s);
                assert(segment_views(kept@) =~= segment_views(was).push(s@));
            }
            i += 1;
        }
        assert(all.take(i as int) =~= all);
        let n: usize = self.sealed.len() - kept.len();
        self.sealed = kept;
        assert(self@ =~= (BufferView { sealed: undurable(all, committed@), ..before }));
        n
    }

    /// Counters. `sealed_bytes` is the memory that the sealed segments' column
    /// data takes, which depends on what the columns allocate: nothing is said
    /// of it.
    pub fn stats(&self) -> (s: BufferStats)
        ensures
            s.active_rows == self@.active.len() as usize,
            s.sealed_rows == row_total(self@.sealed),
            s.sealed_segments == self@.sealed.len() as usize,
    {
        let mut bytes: usize = 0;
        let mut i: usize = 0;
        while i < self.sealed.len()
            invariant
                i <= self.sealed.len(),
            decreases self.sealed.len() - i,
        {
            bytes = bytes.wrapping_add(rows_memory(&self.sealed[i].rows));
            i += 1;
        }
        BufferStats {
            active_rows: self.active.len(),
            sealed_rows: total_rows(&self.sealed),
            sealed_segments: self.sealed.len(),
            sealed_bytes: bytes,
        }
    }
}

/// Rows of all `segments` together, modulo the counter's width.
pub fn total_rows(segments: &Vec<Segment>) -> (rows: usize)
    ensures
        rows == row_total(segment_views(segments@)),
{
    let ghost all = segment_views(segments@);
    let mut rows: usize = 0;
    let mut i: usize = 0;
    while i < segments.len()
        invariant
            i <= segments.len(),
            all == segment_views(segments@),
            rows == row_total(all.take(i as int)),
        decreases segments.len() - i,
    {
        assert(all.take(i + 1).drop_last() =~= all.take(i as int));
        assert(all.take(i + 1).last() == segments@[i as int]@);
        rows = rows.wrapping_add(segments[i].rows.len());
        i += 1;
    }
    assert(all.take(i as int) =~= all);
    rows
}

/// The rows of `rows` in `(scope, src)` order.
fn sort_rows(rows: &Vec<Row>) -> (out: Vec<Row>)
    requires
        rows@.len() <= u32::MAX,
    ensures
        row_views(out@).to_multiset() == row_views(rows@).to_multiset(),
        out@.len() == rows@.len(),
        clustered(row_views(out@)),
{
    let n: usize = rows.len();
    let mut scopes: Vec<u32> = Vec::new();
    let mut srcs: Vec<u64> = Vec::new();
    let mut i: usize = 0;
    while i < n
        invariant
            i <= n,
            n == rows@.len(),
            scopes@.len() == i,
            srcs@.len() == i,
            forall|j: int| 0 <= j < i ==> #[trigger] scopes@[j] == rows@[j].scope,
            forall|j: int| 0 <= j < i ==> #[trigger] srcs@[j] == rows@[j].src,
        decreases n - i,
    {
        scopes.push(rows[i].scope);
        srcs.push(rows[i].src);
        i += 1;
    }
    let order = lexsort_rows(scopes, srcs);
    let ghost all = row_views(rows@);
    let mut out: Vec<Row> = Vec::new();
    let mut k: usize = 0;
    while k < n
        invariant
            k <= n,
            n == rows@.len(),
            all == row_views(rows@),
            order@.len() == n,
            forall|j: int| 0 <= j < order@.len() ==> #[trigger] order@[j] < order@.len(),
            out@.len() == k,
            forall|j: int| 0 <= j < k ==> (#[trigger] out@[j])@ == all[order@[j] as int],
        decreases n - k,
    {
        let at: u32 = order[k];
        let row = rows[at as usize].clone();
        out.push(row);
        k += 1;
    }
    proof {
        let got = row_views(out@);
        let idx = order@.map_values(|x: u32| x as int);
        assert forall|a: int, b: int|
            0 <= a < idx.len() && 0 <= b < idx.len() && a != b
        implies idx[a] != idx[b] by {
            assert(order@[a] != order@[b]);
        }
        assert(got =~= idx.map_values(|x: int| all[x]));
        permuted_rows(all, idx);
        assert forall|a: int, b: int|
            0 <= a < b < got.len()
        implies cluster_le(#[trigger] got[a], #[trigger] got[b]) by {
            assert(order@[a] < order@.len() && order@[b] < order@.len());
            assert(scopes@[order@[a] as int] == rows@[order@[a] as int].scope);
            assert(scopes@[order@[b] as int] == rows@[order@[b] as int].scope);
            assert(srcs@[order@[a] as int] == rows@[order@[a] as int].src);
            assert(srcs@[order@[b] as int] == rows@[order@[b] as int].src);
        }
    }
    out
}

/// Distinct indices below their own number leave none out.
proof fn all_indices_occur(idx: Seq<int>)
    requires
        idx.no_duplicates(),
        forall|i: int| 0 <= i < idx.len() ==> 0 <= #[trigger] idx[i] < idx.len(),
    ensures
        forall|n: int| 0 <= n < idx.len() ==> #[trigger] idx.contains(n),
{
    let all = vstd::set_lib::set_int_range(0, idx.len() as int);
    vstd::set_lib::lemma_int_range(0, idx.len() as int);
    idx.unique_seq_to_set();
    vstd::set_lib::lemma_subset_equality(idx.to_set(), all);
    assert forall|n: int| 0 <= n < idx.len() implies #[trigger] idx.contains(n) by {
        assert(all.contains(n));
        assert(idx.to_set().contains(n));
    }
}

/// Rows gathered by a permutation are the same rows.
proof fn permuted_rows(rows: Seq<RowView>, idx: Seq<int>)
    requires
        idx.len() == rows.len(),
        idx.no_duplicates(),
        forall|i: int| 0 <= i < idx.len() ==> 0 <= #[trigger] idx[i] < rows.len(),
    ensures
        idx.map_values(|x: int| rows[x]).to_multiset() == rows.to_multiset(),
    decreases rows.len(),
{
    broadcast use vstd::seq_lib::group_to_multiset_ensures;

    let got = idx.map_values(|x: int| rows[x]);
    if rows.len() == 0 {
        assert(got =~= rows);
    } else {
        let n = rows.len() - 1;
        // Where the last row went.
        all_indices_occur(idx);
        assert(idx.contains(n));
        let at = idx.index_of(n);
        let rest = idx.remove(at);
        let front = rows.drop_last();
        assert forall|i: int, j: int|
            0 <= i < rest.len() && 0 <= j < rest.len() && i != j
        implies rest[i] != rest[j] by {
            let a = if i < at { i } else { i + 1 };
            let b = if j < at { j } else { j + 1 };
            assert(rest[i] == idx[a] && rest[j] == idx[b]);
        }
        assert forall|i: int| 0 <= i < rest.len() implies 0 <= #[trigger] rest[i] < front.len() by {
            let a = if i < at { i } else { i + 1 };
            assert(rest[i] == idx[a]);
            assert(idx[a] != idx[at]);
        }
        permuted_rows(front, rest);
        let sub = rest.map_values(|x: int| front[x]);
        assert(got.remove(at) =~= sub);
        assert(got =~= got.remove(at).insert(at, rows[n]));
        assert(rows =~= front.push(rows[n]));
    }
}

// --- nothing is lost ----------------------------------------------------------------------------------

/// Every row lies within the span that is recorded for it.
pub open spec fn spans(rows: Seq<RowView>, last: Map<PartitionId, u64>) -> bool {
    forall|i: int| 0 <= i < rows.len() ==> within(#[trigger] rows[i], last)
}

pub open spec fn within(row: RowView, last: Map<PartitionId, u64>) -> bool {
    row.offset <= applied(last, row.partition)
}

/// Every row of the buffer is accounted for: the spans say how far the rows
/// reach.
pub open spec fn accounted(b: BufferView) -> bool {
    &&& spans(b.active, b.last)
    &&& forall|i: int|
        0 <= i < b.sealed.len() ==> spans((#[trigger] b.sealed[i]).rows, b.sealed[i].last)
}

/// **Appending and sealing keep every row accounted for.**
pub proof fn rows_stay_accounted(
    b: BufferView,
    partition: PartitionId,
    offset: u64,
    event: EdgeEvent,
    after: BufferView,
)
    requires
        accounted(b),
    ensures
        accounted(empty_buffer()),
        accounted(appended(b, partition, offset, event)),
        sealed_to(b, after) ==> accounted(after),
{
    let a = appended(b, partition, offset, event);
    assert forall|i: int|
        0 <= i < a.active.len()
    implies within(#[trigger] a.active[i], a.last) by {
        if i < b.active.len() {
            assert(within(b.active[i], b.last));
        }
    }
    if sealed_to(b, after) && b.active.len() > 0 {
        let s = after.sealed.last();
        assert forall|i: int|
            0 <= i < s.rows.len()
        implies within(#[trigger] s.rows[i], s.last) by {
            vstd::seq_lib::to_multiset_contains(s.rows, s.rows[i]);
            vstd::seq_lib::to_multiset_contains(b.active, s.rows[i]);
            assert(s.rows.contains(s.rows[i]));
            assert(b.active.contains(s.rows[i]));
            let j = b.active.index_of(s.rows[i]);
            assert(within(b.active[j], b.last));
        }
        assert forall|i: int| 0 <= i < after.sealed.len() implies spans(
            (#[trigger] after.sealed[i]).rows,
            after.sealed[i].last,
        ) by {
            if i < b.sealed.len() {
                assert(after.sealed[i] == b.sealed[i]);
            }
        }
    }
}

/// **No worker drops what it still owes**: of the segments that a committed
/// position leaves, none is lost, and every row of one that it drops is at or
/// before that position.
pub proof fn only_committed_rows_are_dropped(
    segments: Seq<SegmentView>,
    committed: Map<PartitionId, u64>,
    i: int,
)
    requires
        0 <= i < segments.len(),
        spans(segments[i].rows, segments[i].last),
    ensures
        undurable(segments, committed).contains(segments[i]) || spans(segments[i].rows, committed),
        covers(committed, segments[i].last) ==> spans(segments[i].rows, committed),
        !covers(committed, segments[i].last) ==> undurable(segments, committed).contains(
            segments[i],
        ),
    decreases segments.len(),
{
    let s = segments[i];
    if covers(committed, s.last) {
        assert forall|r: int| 0 <= r < s.rows.len() implies within(
            #[trigger] s.rows[r],
            committed,
        ) by {
            assert(within(s.rows[r], s.last));
            let p = s.rows[r].partition;
            if s.last.contains_key(p) {
                assert(applied(committed, p) >= s.last[p]);
            }
        }
    } else {
        let front = segments.drop_last();
        if i == segments.len() - 1 {
            let kept = undurable(segments, committed);
            assert(kept[kept.len() - 1] == s);
        } else {
            assert(front[i] == s);
            only_committed_rows_are_dropped(front, committed, i);
            let before = undurable(front, committed);
            let j = before.index_of(s);
            let kept = undurable(segments, committed);
            assert(kept[j] == s);
        }
    }
}

/// **An event is buffered as it is**: one row per scope that sees it, scope 0
/// where all do, each with the event's own ends, time and properties, at its
/// partition and offset. What was buffered before stays as it was.
pub proof fn an_event_is_buffered_as_it_is(
    b: BufferView,
    partition: PartitionId,
    offset: u64,
    event: EdgeEvent,
    i: int,
)
    ensures
        ({
            let a = appended(b, partition, offset, event);
            let n = b.active.len();
            &&& a.sealed == b.sealed
            &&& a.active.len() == n + match event.visibility.audience() {
                None => 1,
                Some(seen) => seen.len(),
            }
            &&& 0 <= i < n ==> a.active[i] == b.active[i]
            &&& n <= i < a.active.len() ==> {
                &&& a.active[i].partition == partition
                &&& a.active[i].offset == offset
                &&& a.active[i].src == event.src
                &&& a.active[i].dst == event.dst
                &&& a.active[i].event_time_ms == event.event_time_ms
                &&& a.active[i].props is Some <==> event.props is Some
                &&& event.props is Some ==> a.active[i].props->Some_0 == event.props->Some_0@
                &&& a.active[i].scope == match event.visibility.audience() {
                    None => 0,
                    Some(seen) => seen[i - n],
                }
            }
        }),
{
}

/// **A row says its own fields.**
pub proof fn a_row_says_its_fields(row: Row)
    ensures
        row@.partition == row.partition,
        row@.offset == row.offset,
        row@.src == row.src,
        row@.dst == row.dst,
        row@.scope == row.scope,
        row@.event_time_ms == row.event_time_ms,
        row@.props is Some <==> row.props is Some,
        row.props is Some ==> row@.props->Some_0 == row.props->Some_0@,
{
}

/// **The span of the active rows**: the highest offset of each partition, and
/// the first that it contributed.
pub proof fn the_span_follows_the_events(
    b: BufferView,
    partition: PartitionId,
    offset: u64,
    event: EdgeEvent,
    q: PartitionId,
)
    ensures
        ({
            let a = appended(b, partition, offset, event);
            &&& a.last.contains_key(partition)
            &&& a.last[partition] >= offset
            &&& a.last[partition] == offset || b.last.contains_key(partition)
                && a.last[partition] == b.last[partition]
            &&& b.last.contains_key(partition) ==> a.last[partition] >= b.last[partition]
            &&& q != partition ==> a.last.contains_key(q) == b.last.contains_key(q)
                && a.first.contains_key(q) == b.first.contains_key(q)
            &&& q != partition && b.last.contains_key(q) ==> a.last[q] == b.last[q]
            &&& q != partition && b.first.contains_key(q) ==> a.first[q] == b.first[q]
            &&& a.first.contains_key(partition)
            &&& b.first.contains_key(partition) && b.first[partition] > 0 ==> a.first[partition]
                == b.first[partition]
            &&& !(b.first.contains_key(partition) && b.first[partition] > 0)
                ==> a.first[partition] == offset
        }),
{
}

/// **Sealing keeps every row and its span**, in ascending order of scope, and of
/// source within one scope: a row is among the sealed as often as it was among
/// the active, and the buffer starts over empty.
pub proof fn sealing_keeps_every_row(b: BufferView, s: Segment, row: RowView, i: int, j: int)
    requires
        seals(b, s@),
    ensures
        s@.rows.to_multiset().count(row) == b.active.to_multiset().count(row),
        s.rows@.len() == b.active.len(),
        0 <= i < s.rows@.len() ==> b.active.contains(s.rows@[i]@),
        0 <= i < j < s.rows@.len() ==> s.rows@[i].scope <= s.rows@[j].scope,
        0 <= i < j < s.rows@.len() && s.rows@[i].scope == s.rows@[j].scope ==> s.rows@[i].src
            <= s.rows@[j].src,
        s.first@ == b.first,
        s.last@ == b.last,
        rotated(b, s@).sealed == b.sealed.push(s@),
        rotated(b, s@).active.len() == 0,
        rotated(b, s@).first == Map::<PartitionId, u64>::empty(),
        rotated(b, s@).last == Map::<PartitionId, u64>::empty(),
{
    let rows = s@.rows;
    assert(rows.len() == s.rows@.len());
    if 0 <= i < rows.len() {
        assert(rows[i] == s.rows@[i]@);
        vstd::seq_lib::to_multiset_contains(rows, rows[i]);
        assert(rows.contains(rows[i]));
        vstd::seq_lib::to_multiset_contains(b.active, rows[i]);
    }
    if 0 <= i < j < rows.len() {
        assert(rows[j] == s.rows@[j]@);
        assert(cluster_le(rows[i], rows[j]));
    }
}

/// **A commit drops exactly what it covers**: a segment goes where every
/// partition it reached is committed at least that far, and stays otherwise;
/// those that stay keep their order.
pub proof fn a_commit_drops_what_it_covers(
    a: Seq<SegmentView>,
    b: Seq<SegmentView>,
    s: SegmentView,
    committed: Map<PartitionId, u64>,
)
    ensures
        undurable(a + b, committed) == undurable(a, committed) + undurable(b, committed),
        undurable(seq![s], committed) == if forall|p: PartitionId| #[trigger]
            s.last.contains_key(p) && s.last[p] > 0 ==> committed.contains_key(p) && committed[p]
                >= s.last[p] {
            Seq::empty()
        } else {
            seq![s]
        },
    decreases b.len(),
{
    crate::graph::stream::dominance_is_per_partition(committed, s.last);
    assert(seq![s].drop_last() =~= Seq::empty());
    assert(undurable(Seq::<SegmentView>::empty(), committed) =~= Seq::empty());
    assert(undurable(seq![s], committed) =~= if covers(committed, s.last) {
        Seq::empty()
    } else {
        seq![s]
    });
    if b.len() == 0 {
        assert(a + b =~= a);
        assert(undurable(a, committed) + undurable(b, committed) =~= undurable(a, committed));
    } else {
        let front = b.drop_last();
        a_commit_drops_what_it_covers(a, front, s, committed);
        assert((a + b).drop_last() =~= a + front);
        assert((a + b).last() == b.last());
        assert(undurable(a + b, committed) =~= undurable(a, committed) + undurable(b, committed));
    }
}

/// **Rows add up**: those of one segment are as many as it holds, and two lists
/// of segments hold the rows of both, modulo the counter's width.
pub proof fn rows_add_up(a: Seq<SegmentView>, b: Seq<SegmentView>, s: SegmentView)
    requires
        s.rows.len() <= usize::MAX,
    ensures
        row_total(Seq::empty()) == 0,
        row_total(seq![s]) == s.rows.len(),
        row_total(a + b) == row_total(a).wrapping_add(row_total(b)),
    decreases b.len(),
{
    assert(seq![s].drop_last() =~= Seq::empty());
    assert(row_total(Seq::empty()) == 0);
    assert(seq![s].last() == s);
    if b.len() == 0 {
        assert(a + b =~= a);
    } else {
        rows_add_up(a, b.drop_last(), s);
        assert((a + b).drop_last() =~= a + b.drop_last());
        assert((a + b).last() == b.last());
    }
}

/// **What an append adds is the event**: each row it adds is at the given partition
/// and offset and carries the event's own ends, time and properties; the rows
/// before, and what is sealed, stay as they are.
pub proof fn an_append_adds_the_event(
    buffer: &mut EdgeBuffer,
    partition: PartitionId,
    offset: u64,
    event: EdgeEvent,
    i: int,
)
    requires
        call_ensures(EdgeBuffer::append, (buffer, partition, offset, &event), ()),
    ensures
        ({
            let before = old(buffer)@;
            let after = final(buffer)@;
            let n = before.active.len();
            &&& after.sealed == before.sealed
            &&& after.active.len() > n
            &&& 0 <= i < n ==> after.active[i] == before.active[i]
            &&& n <= i < after.active.len() ==> {
                &&& after.active[i].partition == partition
                &&& after.active[i].offset == offset
                &&& after.active[i].src == event.src
                &&& after.active[i].dst == event.dst
                &&& after.active[i].event_time_ms == event.event_time_ms
                &&& after.active[i].props is Some <==> event.props is Some
                &&& event.props is Some ==> after.active[i].props->Some_0 == event.props->Some_0@
            }
            &&& after.last[partition] >= offset
        }),
{
    an_event_is_buffered_as_it_is(buffer@, partition, offset, event, i);
    crate::graph::types::an_edge_is_seen_by_its_audience(event.visibility);
    if let Some(seen) = event.visibility.audience() {
        if let crate::graph::types::Visibility::Scoped(l) = event.visibility {
            assert(l@.contains(l@[0]));
            assert(seen.contains(l@[0]));
        }
    }
}

/// **A seal loses no row**: the segment it hands out holds each active row as often
/// as it was there, in ascending order of scope, is kept until it is committed, and
/// the buffer starts over; and with no active row there is nothing to hand out.
pub proof fn a_seal_loses_no_row(
    buffer: &mut EdgeBuffer,
    r: Option<Segment>,
    row: RowView,
    i: int,
    j: int,
)
    requires
        call_ensures(EdgeBuffer::seal_active, (buffer,), r),
    ensures
        r is None <==> old(buffer)@.active.len() == 0,
        r is None ==> final(buffer)@ == old(buffer)@,
        r matches Some(s) ==> {
            &&& s@.rows.to_multiset().count(row) == old(buffer)@.active.to_multiset().count(row)
            &&& 0 <= i < j < s.rows@.len() ==> s.rows@[i].scope <= s.rows@[j].scope
            &&& final(buffer)@.sealed == old(buffer)@.sealed.push(s@)
            &&& final(buffer)@.active.len() == 0
            &&& s.first@ == old(buffer)@.first && s.last@ == old(buffer)@.last
        },
{
    if let Some(s) = r {
        sealing_keeps_every_row(buffer@, s, row, i, j);
    }
}

/// **What is not committed stays buffered**: a commit leaves the active rows, and
/// each sealed segment that reaches past it in some partition.
pub proof fn what_is_not_committed_stays(
    buffer: &mut EdgeBuffer,
    committed: StreamPosition,
    n: usize,
    i: int,
    p: PartitionId,
)
    requires
        call_ensures(EdgeBuffer::drop_committed, (buffer, &committed), n),
        0 <= i < old(buffer)@.sealed.len(),
        old(buffer)@.sealed[i].last.contains_key(p),
        old(buffer)@.sealed[i].last[p] > 0,
        !committed@.contains_key(p) || committed@[p] < old(buffer)@.sealed[i].last[p],
    ensures
        final(buffer)@.sealed.contains(old(buffer)@.sealed[i]),
        final(buffer)@.active == old(buffer)@.active,
        final(buffer)@.sealed.len() + n == old(buffer)@.sealed.len(),
{
    let all = buffer@.sealed;
    let a = all.take(i);
    let one = seq![all[i]];
    let b = all.skip(i + 1);
    assert(all =~= (a + one) + b);
    a_commit_drops_what_it_covers(a + one, b, all[i], committed@);
    a_commit_drops_what_it_covers(a, one, all[i], committed@);
    assert(all[i].last.contains_key(p));
    let kept = undurable(all, committed@);
    assert(undurable(one, committed@) == one);
    assert(kept[undurable(a, committed@).len() as int] == all[i]);
}

/// **A buffer reports the rows it holds**: those being written, those sealed, and in
/// how many segments.
pub proof fn a_buffer_reports_its_rows(b: EdgeBuffer, s: BufferStats)
    requires
        call_ensures(EdgeBuffer::stats, (&b,), s),
        b@.active.len() <= usize::MAX,
        b@.sealed.len() <= usize::MAX,
    ensures
        s.active_rows == b@.active.len(),
        s.sealed_segments == b@.sealed.len(),
        b@.sealed.len() == 0 ==> s.sealed_rows == 0,
        b@.sealed.len() == 1 && b@.sealed[0].rows.len() <= usize::MAX ==> s.sealed_rows
            == b@.sealed[0].rows.len(),
{
    if b@.sealed.len() == 1 && b@.sealed[0].rows.len() <= usize::MAX {
        rows_add_up(Seq::empty(), Seq::empty(), b@.sealed[0]);
        assert(b@.sealed =~= seq![b@.sealed[0]]);
    }
}

} // verus!
