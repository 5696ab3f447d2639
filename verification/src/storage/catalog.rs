//! What a snapshot's metadata says, and the rules it keeps.
//!
//! Commits follow the Iceberg model: data and Puffin files are written first,
//! then a single immutable metadata object makes them visible. It is created
//! only if absent, so two would-be leaders racing on the same sequence number
//! cannot clobber each other.

use std::ops::RangeInclusive;
use vstd::prelude::*;
use vstd::string::*;

use crate::graph::stream::{
    applied, covers, one_stream, position_text, scalar_of, stream_text, PartitionId, StreamId,
    StreamPosition,
};
use super::names::{
    a_listing_gives_its_sequences_ascending, named_sequence, sequences_in, sequences_of, text_views,
};
use crate::text::{decimal, push_decimal, said_between, says};

verus! {

#[derive(Debug)]
pub struct DataFileMeta {
    pub path: String,
    pub rows: u64,
    pub bytes: u64,
    /// Scalar span, exact for a single-partition stream and `0` otherwise.
    pub min_offset: u64,
    pub max_offset: u64,
    /// Lowest offset this file holds per partition.
    pub first_position: StreamPosition,
    /// Highest offset this file holds per partition.
    pub last_position: StreamPosition,
}

/// One committed micro-batch.
#[derive(Debug)]
pub struct SnapshotMeta {
    pub sequence: u64,
    pub committed_at_ms: i64,
    /// Highest event offset covered by this snapshot (inclusive), as a scalar:
    /// the same number as `position` where that covers partition 0 alone, and
    /// `0` for a multi-partition position. Read
    /// [`SnapshotMeta::stream_position`], never this field.
    pub watermark: u64,
    /// Where the input stream stands as of this snapshot, per partition.
    /// Empty where only `watermark` was recorded.
    pub position: StreamPosition,
    /// Which stream `position` is measured in.
    pub stream: Option<StreamId>,
    pub data_files: Vec<DataFileMeta>,
    /// Puffin sidecar for *this* commit.
    pub puffin_path: String,
    pub committer: String,
    /// Sequence of the newest full base; `0` where none was recorded, which
    /// means that this commit is its own base.
    pub base_sequence: u64,
    /// Deltas layered on the base.
    pub delta_chain_len: u64,
    /// The runs that make up routing state as of this snapshot. Empty on
    /// snapshots that describe themselves as a chain; use
    /// [`SnapshotMeta::run_set`] rather than reading it directly.
    pub runs: Vec<RunMeta>,
    /// Catalog format generation, `0` for anything written before run sets.
    pub format_version: u32,
}

/// `format_version` for snapshots that describe themselves as a set of runs.
pub const FORMAT_RUN_SETS: u32 = 1;

/// `format_version` for snapshots carrying a per-partition position.
pub const FORMAT_STREAM_POSITION: u32 = 2;

/// One immutable run of routing pairs: a folded memtable, or the output of
/// merging several runs.
#[derive(Debug, PartialEq, Eq)]
pub struct RunMeta {
    pub path: String,
    /// Size tier. 0 is a freshly folded memtable.
    pub level: u8,
    /// Catalog sequences this run covers, inclusive. This fixes a run's place
    /// in the resolution order: runs resolve oldest-span-first.
    pub min_sequence: u64,
    pub max_sequence: u64,
    pub pairs: u64,
    pub bytes: u64,
}

/// What a [`RunMeta`] says.
#[verifier::ext_equal]
pub ghost struct RunView {
    pub path: Seq<char>,
    pub level: u8,
    pub min_sequence: u64,
    pub max_sequence: u64,
    pub pairs: u64,
    pub bytes: u64,
}

impl View for RunMeta {
    type V = RunView;

    open spec fn view(&self) -> RunView {
        RunView {
            path: self.path@,
            level: self.level,
            min_sequence: self.min_sequence,
            max_sequence: self.max_sequence,
            pairs: self.pairs,
            bytes: self.bytes,
        }
    }
}

impl Clone for RunMeta {
    fn clone(&self) -> (r: RunMeta)
        ensures
            r@ == self@,
    {
        RunMeta {
            path: self.path.clone(),
            level: self.level,
            min_sequence: self.min_sequence,
            max_sequence: self.max_sequence,
            pairs: self.pairs,
            bytes: self.bytes,
        }
    }
}

pub open spec fn run_views(runs: Seq<RunMeta>) -> Seq<RunView> {
    runs.map_values(|r: RunMeta| r@)
}

/// `a` is immediately followed by `b` with no gap.
pub open spec fn adjacent(a: RunView, b: RunView) -> bool {
    a.max_sequence + 1 == b.min_sequence
}

impl RunMeta {
    /// Whether `self` is immediately followed by `next` with no gap: merges
    /// may only span a contiguous stretch.
    pub fn adjacent_to(&self, next: &RunMeta) -> (r: bool)
        ensures
            r == adjacent(self@, next@),
    {
        self.max_sequence < u64::MAX && self.max_sequence + 1 == next.min_sequence
    }
}

/// How a snapshot describes its routing state.
#[derive(Debug, PartialEq, Eq)]
pub enum RunSet {
    /// Explicit runs with levels, spans and paths.
    Runs(Vec<RunMeta>),
    /// A base sequence followed by a contiguous chain, with each link's path
    /// found by reading that sequence's own snapshot.
    SequencesOnly(RangeInclusive<u64>),
}

#[derive(Debug, Clone, Copy, PartialEq, Eq, Structural)]
pub enum CommitOutcome {
    Committed,
    /// Another worker committed this sequence first.
    Conflict,
}

/// Why a snapshot may not be read or committed.
#[derive(Debug)]
pub enum CatalogError {
    /// It claims the run-set format but lists no runs.
    NoRuns { sequence: u64 },
    /// A run spans backwards.
    SpansBackwards { sequence: u64, run: RunMeta },
    /// Two runs in a row leave a gap or overlap.
    NotAdjacent { sequence: u64, older: RunMeta, newer: RunMeta },
    /// The newest run does not end at the snapshot's own sequence.
    OwnSequenceMissing { sequence: u64, newest: u64 },
    /// A partition went backwards.
    PositionBackwards { sequence: u64, after: StreamPosition, before: StreamPosition },
    /// The offsets are in another stream.
    StreamChanged { sequence: u64, stream: StreamId, previous: u64, committed: StreamId },
}

// --- specifications ------------------------------------------------------------------------------

/// `runs` with `r` after every run that does not start later.
pub open spec fn run_placed(runs: Seq<RunView>, r: RunView) -> Seq<RunView>
    decreases runs.len(),
{
    if runs.len() == 0 || runs.last().min_sequence <= r.min_sequence {
        runs.push(r)
    } else {
        run_placed(runs.drop_last(), r).push(runs.last())
    }
}

/// `runs`, oldest span first; those that start together in the order listed.
pub open spec fn by_span(runs: Seq<RunView>) -> Seq<RunView>
    decreases runs.len(),
{
    if runs.len() == 0 {
        Seq::empty()
    } else {
        run_placed(by_span(runs.drop_last()), runs.last())
    }
}

/// The first run of `runs` that spans backwards is `i`.
pub open spec fn first_backwards(runs: Seq<RunView>, i: int) -> bool {
    &&& 0 <= i < runs.len()
    &&& runs[i].min_sequence > runs[i].max_sequence
    &&& forall|j: int| 0 <= j < i ==> (#[trigger] runs[j]).min_sequence <= runs[j].max_sequence
}

/// Every run spans forwards.
pub open spec fn all_forwards(runs: Seq<RunView>) -> bool {
    forall|j: int|
        0 <= j < runs.len() ==> (#[trigger] runs[j]).min_sequence <= runs[j].max_sequence
}

/// The first two runs in a row that are not adjacent are `i` and the next.
pub open spec fn first_gap(runs: Seq<RunView>, i: int) -> bool {
    &&& 0 <= i < runs.len() - 1
    &&& !adjacent(runs[i], runs[i + 1])
    &&& forall|j: int| 0 <= j < i ==> adjacent(runs[j], #[trigger] runs[j + 1])
}

/// Runs follow one another without gap or overlap.
pub open spec fn all_adjacent(runs: Seq<RunView>) -> bool {
    forall|j: int| 0 <= j < runs.len() - 1 ==> adjacent(runs[j], #[trigger] runs[j + 1])
}

/// The sequence a snapshot's chain starts at.
pub open spec fn chain_start(base_sequence: u64, sequence: u64) -> u64 {
    if base_sequence == 0 {
        sequence
    } else {
        base_sequence
    }
}

impl SnapshotMeta {
    /// The snapshot describes its routing state as a chain: a base and every
    /// delta above it.
    pub open spec fn is_chain(&self) -> bool {
        self.runs@.len() == 0 && self.format_version < FORMAT_RUN_SETS
    }

    /// Where the stream stands as of this snapshot.
    pub open spec fn stands_at(&self) -> Map<PartitionId, u64> {
        if self.position@.dom().len() == 0 {
            Map::<PartitionId, u64>::empty().insert(0, self.watermark)
        } else {
            self.position@
        }
    }

    /// Where the stream stands as of this snapshot: the single way readers
    /// should ask.
    ///
    /// Falls back to `{0: watermark}` where no position was recorded: such a
    /// snapshot was written by a worker that could only consume one stream,
    /// and partition 0 is what a single-partition source produces.
    pub fn stream_position(&self) -> (p: StreamPosition)
        ensures
            p@ == self.stands_at(),
    {
        if self.position.is_empty() {
            StreamPosition::single(self.watermark)
        } else {
            self.position.clone()
        }
    }

    /// Sets the position, keeping `watermark` in step where a scalar is exact.
    pub fn set_stream_position(&mut self, position: StreamPosition)
        ensures
            final(self).position@ == position@,
            final(self).watermark == match scalar_of(position@) {
                Some(n) => n,
                None => 0,
            },
            final(self).format_version == if position@.dom().len() > 1 && old(self).format_version
                < FORMAT_STREAM_POSITION {
                FORMAT_STREAM_POSITION
            } else {
                old(self).format_version
            },
            final(self).sequence == old(self).sequence,
            final(self).committed_at_ms == old(self).committed_at_ms,
            final(self).stream == old(self).stream,
            final(self).data_files == old(self).data_files,
            final(self).puffin_path == old(self).puffin_path,
            final(self).committer == old(self).committer,
            final(self).base_sequence == old(self).base_sequence,
            final(self).delta_chain_len == old(self).delta_chain_len,
            final(self).runs == old(self).runs,
    {
        self.watermark = match position.as_scalar() {
            Some(n) => n,
            None => 0,
        };
        if position.len() > 1 && self.format_version < FORMAT_STREAM_POSITION {
            self.format_version = FORMAT_STREAM_POSITION;
        }
        self.position = position;
    }

    /// The snapshots name different streams.
    pub open spec fn other_stream(&self, previous: &SnapshotMeta) -> bool {
        self.stream matches Some(a) && previous.stream matches Some(b) && !one_stream(a@, b@)
    }

    /// Whether this snapshot may follow `previous` in the same table.
    ///
    /// Every partition must be at or ahead of where it was. Two successive
    /// positions that are incomparable mean that some partition went
    /// backwards, which is a second consumer applying records this one has not
    /// seen.
    pub fn advances_from(&self, previous: &SnapshotMeta) -> (r: Result<(), CatalogError>)
        ensures
            match r {
                Ok(()) => covers(self.stands_at(), previous.stands_at()) && !self.other_stream(
                    previous,
                ),
                Err(CatalogError::PositionBackwards { sequence, after, before }) => !covers(
                    self.stands_at(),
                    previous.stands_at(),
                ) && sequence == self.sequence && after@ == self.stands_at() && before@
                    == previous.stands_at(),
                Err(CatalogError::StreamChanged { sequence, stream, previous: p, committed }) => {
                    &&& covers(self.stands_at(), previous.stands_at())
                    &&& self.other_stream(previous)
                    &&& sequence == self.sequence
                    &&& p == previous.sequence
                    &&& self.stream matches Some(a) && stream@ == a@
                    &&& previous.stream matches Some(b) && committed@ == b@
                },
                Err(_) => false,
            },
    {
        let before = previous.stream_position();
        let after = self.stream_position();
        if !after.dominates(&before) {
            return Err(
                CatalogError::PositionBackwards { sequence: self.sequence, after, before },
            );
        }
        match (&self.stream, &previous.stream) {
            (Some(a), Some(b)) => {
                if !a.same_stream(b) {
                    return Err(
                        CatalogError::StreamChanged {
                            sequence: self.sequence,
                            stream: a.clone(),
                            previous: previous.sequence,
                            committed: b.clone(),
                        },
                    );
                }
            },
            _ => {},
        }
        Ok(())
    }

    /// Sequences whose Puffin files must be read, oldest first, to reconstruct
    /// routing state as of this snapshot.
    pub fn chain(&self) -> (r: RangeInclusive<u64>)
        ensures
            r@.start == chain_start(self.base_sequence, self.sequence),
            r@.end == self.sequence,
            !r@.exhausted,
    {
        RangeInclusive::new(self.chain_base(), self.sequence)
    }

    /// The sequence the chain starts at.
    pub fn chain_base(&self) -> (base: u64)
        ensures
            base == chain_start(self.base_sequence, self.sequence),
    {
        if self.base_sequence == 0 {
            self.sequence
        } else {
            self.base_sequence
        }
    }

    /// The runs to assemble, oldest first: the single way readers should ask.
    ///
    /// Runs resolve oldest-span-first, so a gap means some sequence's state
    /// belongs to no run and an overlap means two runs claim it. Either way
    /// resolution order stops being total, and nothing else would notice: a
    /// malformed set assembles and answers just as cleanly as a correct one,
    /// only wrongly. The oldest run need not start at 1: everything below it
    /// may already be inside it.
    pub fn run_set(&self) -> (r: Result<RunSet, CatalogError>)
        ensures
            ({
                let runs = run_views(self.runs@);
                let sorted = by_span(runs);
                match r {
                    Ok(RunSet::SequencesOnly(range)) => {
                        &&& runs.len() == 0
                        &&& self.format_version < FORMAT_RUN_SETS
                        &&& range@.start == chain_start(self.base_sequence, self.sequence)
                        &&& range@.end == self.sequence
                        &&& !range@.exhausted
                    },
                    Ok(RunSet::Runs(v)) => {
                        &&& runs.len() > 0
                        &&& run_views(v@) == sorted
                        &&& all_forwards(sorted)
                        &&& all_adjacent(sorted)
                        &&& sorted.last().max_sequence == self.sequence
                    },
                    Err(CatalogError::NoRuns { sequence }) => {
                        &&& runs.len() == 0
                        &&& self.format_version >= FORMAT_RUN_SETS
                        &&& sequence == self.sequence
                    },
                    Err(CatalogError::SpansBackwards { sequence, run }) => {
                        &&& runs.len() > 0
                        &&& sequence == self.sequence
                        &&& exists|i: int| #[trigger] first_backwards(sorted, i) && run@ == sorted[i]
                    },
                    Err(CatalogError::NotAdjacent { sequence, older, newer }) => {
                        &&& runs.len() > 0
                        &&& all_forwards(sorted)
                        &&& sequence == self.sequence
                        &&& exists|i: int| #[trigger]
                            first_gap(sorted, i) && older@ == sorted[i] && newer@ == sorted[i + 1]
                    },
                    Err(CatalogError::OwnSequenceMissing { sequence, newest }) => {
                        &&& runs.len() > 0
                        &&& all_forwards(sorted)
                        &&& all_adjacent(sorted)
                        &&& sequence == self.sequence
                        &&& newest == sorted.last().max_sequence
                        &&& newest != self.sequence
                    },
                    Err(_) => false,
                }
            }),
    {
        if self.runs.len() == 0 {
            if self.format_version >= FORMAT_RUN_SETS {
                return Err(CatalogError::NoRuns { sequence: self.sequence });
            }
            return Ok(RunSet::SequencesOnly(self.chain()));
        }
        let runs = sorted_by_span(&self.runs);
        let ghost sorted = run_views(runs@);
        proof {
            by_span_keeps_len(run_views(self.runs@));
        }
        let mut i: usize = 0;
        while i < runs.len()
            invariant
                i <= runs.len(),
                sorted == run_views(runs@),
                sorted == by_span(run_views(self.runs@)),
                self.runs@.len() > 0,
                forall|j: int|
                    0 <= j < i ==> (#[trigger] sorted[j]).min_sequence <= sorted[j].max_sequence,
            decreases runs.len() - i,
        {
            assert(sorted[i as int] == runs@[i as int]@);
            if runs[i].min_sequence > runs[i].max_sequence {
                assert(first_backwards(sorted, i as int));
                return Err(
                    CatalogError::SpansBackwards { sequence: self.sequence, run: runs[i].clone() },
                );
            }
            i += 1;
        }
        let mut k: usize = 0;
        while k + 1 < runs.len()
            invariant
                k < runs.len(),
                sorted == run_views(runs@),
                sorted == by_span(run_views(self.runs@)),
                self.runs@.len() > 0,
                all_forwards(sorted),
                forall|j: int| 0 <= j < k ==> adjacent(sorted[j], #[trigger] sorted[j + 1]),
            decreases runs.len() - k,
        {
            assert(sorted[k as int] == runs@[k as int]@);
            assert(sorted[k + 1] == runs@[k + 1]@);
            if !runs[k].adjacent_to(&runs[k + 1]) {
                assert(first_gap(sorted, k as int));
                return Err(
                    CatalogError::NotAdjacent {
                        sequence: self.sequence,
                        older: runs[k].clone(),
                        newer: runs[k + 1].clone(),
                    },
                );
            }
            k += 1;
        }
        let newest: u64 = runs[runs.len() - 1].max_sequence;
        assert(sorted.last() == runs@[runs@.len() - 1]@);
        if newest != self.sequence {
            return Err(
                CatalogError::OwnSequenceMissing { sequence: self.sequence, newest },
            );
        }
        Ok(RunSet::Runs(runs))
    }
}

proof fn run_placed_len(runs: Seq<RunView>, r: RunView)
    ensures
        run_placed(runs, r).len() == runs.len() + 1,
    decreases runs.len(),
{
    if runs.len() > 0 && runs.last().min_sequence > r.min_sequence {
        run_placed_len(runs.drop_last(), r);
    }
}

pub proof fn by_span_keeps_len(runs: Seq<RunView>)
    ensures
        by_span(runs).len() == runs.len(),
    decreases runs.len(),
{
    if runs.len() > 0 {
        by_span_keeps_len(runs.drop_last());
        run_placed_len(by_span(runs.drop_last()), runs.last());
    }
}

/// `runs`, oldest span first. Resolution order is by span, not by the order the
/// runs happen to be listed in.
fn sorted_by_span(runs: &Vec<RunMeta>) -> (out: Vec<RunMeta>)
    ensures
        run_views(out@) == by_span(run_views(runs@)),
{
    let ghost all = run_views(runs@);
    let mut out: Vec<RunMeta> = Vec::new();
    let mut i: usize = 0;
    assert(run_views(out@) =~= by_span(all.take(0)));
    while i < runs.len()
        invariant
            i <= runs.len(),
            all == run_views(runs@),
            run_views(out@) == by_span(all.take(i as int)),
        decreases runs.len() - i,
    {
        let ghost before = run_views(out@);
        let ghost r = runs@[i as int]@;
        let mut at: usize = out.len();
        let start: u64 = runs[i].min_sequence;
        assert(before.take(at as int) =~= before);
        assert(run_placed(before.take(at as int), r) + before.skip(at as int) =~= run_placed(
            before,
            r,
        ));
        while at > 0 && out[at - 1].min_sequence > start
            invariant
                at <= out.len(),
                start == r.min_sequence,
                before == run_views(out@),
                run_placed(before.take(at as int), r) + before.skip(at as int) == run_placed(
                    before,
                    r,
                ),
            decreases at,
        {
            proof {
                let here = before.take(at as int);
                assert(here.last() == out@[at - 1]@);
                assert(here.drop_last() =~= before.take(at - 1));
                assert(run_placed(here, r) == run_placed(before.take(at - 1), r).push(here.last()));
                assert(before.skip(at - 1) =~= seq![here.last()] + before.skip(at as int));
                assert(run_placed(here, r) + before.skip(at as int) =~= run_placed(
                    before.take(at - 1),
                    r,
                ) + before.skip(at - 1));
            }
            at = at - 1;
        }
        proof {
            let here = before.take(at as int);
            if at > 0 {
                assert(here.last() == out@[at - 1]@);
            }
            assert(run_placed(here, r) == here.push(r));
        }
        out.insert(at, runs[i].clone());
        proof {
            assert(run_views(out@) =~= before.take(at as int).push(r) + before.skip(at as int));
            assert(all.take(i + 1).drop_last() =~= all.take(i as int));
            assert(all.take(i + 1).last() == r);
        }
        i += 1;
    }
    assert(all.take(i as int) =~= all);
    out
}

// --- messages ----------------------------------------------------------------------------------------

/// A span as text: `a..=b`.
pub open spec fn span_text(a: u64, b: u64) -> Seq<char> {
    decimal(a as nat) + "..="@ + decimal(b as nat)
}

fn push_span(s: &mut String, a: u64, b: u64)
    ensures
        final(s)@ == old(s)@ + span_text(a, b),
{
    let ghost before = s@;
    push_decimal(s, a);
    s.append("..=");
    push_decimal(s, b);
    assert(s@ =~= before + span_text(a, b));
}

impl CatalogError {
    /// The error in words.
    pub open spec fn words(&self) -> Seq<char> {
        match self {
            CatalogError::NoRuns { sequence } => "snapshot "@ + decimal(*sequence as nat)
                + " claims the run-set format but lists no runs"@,
            CatalogError::SpansBackwards { sequence, run } => "snapshot "@ + decimal(
                *sequence as nat,
            ) + ": run "@ + run.path@ + " spans backwards ("@ + span_text(
                run.min_sequence,
                run.max_sequence,
            ) + ")"@,
            CatalogError::NotAdjacent { sequence, older, newer } => "snapshot "@ + decimal(
                *sequence as nat,
            ) + ": runs "@ + span_text(older.min_sequence, older.max_sequence) + " and "@
                + span_text(newer.min_sequence, newer.max_sequence)
                + " are not adjacent, so sequence order is ambiguous"@,
            CatalogError::OwnSequenceMissing { sequence, newest } => "snapshot "@ + decimal(
                *sequence as nat,
            ) + ": newest run ends at "@ + decimal(*newest as nat)
                + ", so this commit's own sequence is in no run"@,
            CatalogError::PositionBackwards { sequence, after, before } => "snapshot "@ + decimal(
                *sequence as nat,
            ) + " moves the stream position backwards: "@ + position_text(after@)
                + " does not cover "@ + position_text(before@)
                + ". A partition can only advance, so this is another consumer committing to the same table."@,
            CatalogError::StreamChanged { sequence, stream, previous, committed } => "snapshot "@
                + decimal(*sequence as nat) + " claims stream "@ + stream_text(stream@)
                + " but snapshot "@ + decimal(*previous as nat) + " committed "@ + stream_text(
                committed@,
            ) + "; offsets from one are meaningless in the other"@,
        }
    }

    /// The error in words.
    pub fn to_text(&self) -> (s: String)
        ensures
            s@ == self.words(),
    {
        let mut s = String::from_str("snapshot ");
        match self {
            CatalogError::NoRuns { sequence } => {
                push_decimal(&mut s, *sequence);
                s.append(" claims the run-set format but lists no runs");
            },
            CatalogError::SpansBackwards { sequence, run } => {
                push_decimal(&mut s, *sequence);
                s.append(": run ");
                s.append(run.path.as_str());
                s.append(" spans backwards (");
                push_span(&mut s, run.min_sequence, run.max_sequence);
                s.append(")");
            },
            CatalogError::NotAdjacent { sequence, older, newer } => {
                push_decimal(&mut s, *sequence);
                s.append(": runs ");
                push_span(&mut s, older.min_sequence, older.max_sequence);
                s.append(" and ");
                push_span(&mut s, newer.min_sequence, newer.max_sequence);
                s.append(" are not adjacent, so sequence order is ambiguous");
            },
            CatalogError::OwnSequenceMissing { sequence, newest } => {
                push_decimal(&mut s, *sequence);
                s.append(": newest run ends at ");
                push_decimal(&mut s, *newest);
                s.append(", so this commit's own sequence is in no run");
            },
            CatalogError::PositionBackwards { sequence, after, before } => {
                push_decimal(&mut s, *sequence);
                s.append(" moves the stream position backwards: ");
                s.append(after.to_text().as_str());
                s.append(" does not cover ");
                s.append(before.to_text().as_str());
                s.append(
                    ". A partition can only advance, so this is another consumer committing to the same table.",
                );
            },
            CatalogError::StreamChanged { sequence, stream, previous, committed } => {
                push_decimal(&mut s, *sequence);
                s.append(" claims stream ");
                s.append(stream.to_text().as_str());
                s.append(" but snapshot ");
                push_decimal(&mut s, *previous);
                s.append(" committed ");
                s.append(committed.to_text().as_str());
                s.append("; offsets from one are meaningless in the other");
            },
        }
        assert(s@ =~= self.words());
        s
    }
}

// --- finding the latest snapshot -------------------------------------------------------------------------

/// What to do next to find the latest snapshot. Sequences are dense, so one
/// that was seen committed can be probed forward from, instead of listing
/// everything.
#[derive(Debug, Clone, Copy, PartialEq, Eq, Structural)]
pub enum Probe {
    /// List the metadata objects.
    List,
    /// Ask whether this sequence is committed.
    Exists(u64),
    /// This sequence is the latest: read it.
    Read(u64),
    /// Nothing was ever committed.
    Empty,
}

/// The probe after `sequence` was seen committed.
pub open spec fn beyond(sequence: u64) -> Probe {
    if sequence == u64::MAX {
        Probe::Read(sequence)
    } else {
        Probe::Exists((sequence + 1) as u64)
    }
}

/// The first step, given the highest sequence seen committed so far (0 where
/// none was).
pub fn probe_start(cached: u64) -> (p: Probe)
    ensures
        p == if cached == 0 {
            Probe::List
        } else {
            beyond(cached)
        },
{
    if cached == 0 {
        Probe::List
    } else {
        probe_beyond(cached)
    }
}

fn probe_beyond(sequence: u64) -> (p: Probe)
    ensures
        p == beyond(sequence),
{
    if sequence == u64::MAX {
        Probe::Read(sequence)
    } else {
        Probe::Exists(sequence + 1)
    }
}

/// The step after a listing: its newest sequence is committed.
pub fn probe_listed(names: &Vec<String>) -> (p: Probe)
    ensures
        ({
            let found = sequences_in(text_views(names@));
            p == if found.len() == 0 || found.last() == 0 {
                Probe::Empty
            } else {
                beyond(found.last())
            }
        }),
{
    let found = sequences_of(names);
    if found.len() == 0 {
        return Probe::Empty;
    }
    let newest: u64 = found[found.len() - 1];
    if newest == 0 {
        Probe::Empty
    } else {
        probe_beyond(newest)
    }
}

/// The step after `sequence` was asked for.
pub fn probe_answered(sequence: u64, committed: bool) -> (p: Probe)
    requires
        sequence > 0,
    ensures
        p == if committed {
            beyond(sequence)
        } else {
            Probe::Read((sequence - 1) as u64)
        },
{
    if committed {
        probe_beyond(sequence)
    } else {
        Probe::Read(sequence - 1)
    }
}

// --- laws ---------------------------------------------------------------------------------------------------

/// Runs, oldest span first.
pub open spec fn spans_ascend(runs: Seq<RunView>) -> bool {
    forall|i: int, j: int|
        0 <= i < j < runs.len() ==> (#[trigger] runs[i]).min_sequence <= (
        #[trigger] runs[j]).min_sequence
}

proof fn run_placed_sorts(runs: Seq<RunView>, r: RunView)
    requires
        spans_ascend(runs),
    ensures
        spans_ascend(run_placed(runs, r)),
        run_placed(runs, r).to_multiset() == runs.to_multiset().insert(r),
        run_placed(runs, r).len() == runs.len() + 1,
        runs.len() > 0 ==> run_placed(runs, r).last().min_sequence == if runs.last().min_sequence
            <= r.min_sequence {
            r.min_sequence
        } else {
            runs.last().min_sequence
        },
    decreases runs.len(),
{
    broadcast use vstd::seq_lib::group_to_multiset_ensures;

    let out = run_placed(runs, r);
    if runs.len() == 0 || runs.last().min_sequence <= r.min_sequence {
        assert forall|i: int, j: int| 0 <= i < j < out.len() implies (#[trigger] out[i]).min_sequence <= (
        #[trigger] out[j]).min_sequence by {
            if j == runs.len() && i < runs.len() - 1 {
                assert(runs[i].min_sequence <= runs[runs.len() - 1].min_sequence);
            }
        }
    } else {
        let front = runs.drop_last();
        let last = runs.last();
        assert forall|i: int, j: int| 0 <= i < j < front.len() implies (#[trigger] front[i]).min_sequence <= (
        #[trigger] front[j]).min_sequence by {
            assert(runs[i].min_sequence <= runs[j].min_sequence);
        }
        run_placed_sorts(front, r);
        let before = run_placed(front, r);
        assert(runs =~= front.push(last));
        assert forall|i: int, j: int| 0 <= i < j < out.len() implies (#[trigger] out[i]).min_sequence <= (
        #[trigger] out[j]).min_sequence by {
            if j < before.len() {
                assert(before[i].min_sequence <= before[j].min_sequence);
            } else {
                let n = before.len() - 1;
                if i < n {
                    assert(before[i].min_sequence <= before[n].min_sequence);
                }
                if front.len() > 0 {
                    assert(runs[front.len() - 1].min_sequence <= runs[front.len() as int].min_sequence);
                }
            }
        }
    }
}

/// **Runs resolve oldest span first, however they were listed**: sorting keeps
/// every run and puts them in span order.
pub proof fn runs_resolve_by_span(runs: Seq<RunView>)
    ensures
        spans_ascend(by_span(runs)),
        by_span(runs).to_multiset() == runs.to_multiset(),
    decreases runs.len(),
{
    broadcast use vstd::seq_lib::group_to_multiset_ensures;

    if runs.len() > 0 {
        let front = runs.drop_last();
        runs_resolve_by_span(front);
        run_placed_sorts(by_span(front), runs.last());
        assert(runs =~= front.push(runs.last()));
    }
}

/// `s` lies in the span of `r`.
pub open spec fn in_span(r: RunView, s: int) -> bool {
    r.min_sequence <= s <= r.max_sequence
}

proof fn spans_before(runs: Seq<RunView>, i: int, j: int)
    requires
        all_forwards(runs),
        all_adjacent(runs),
        0 <= i < j < runs.len(),
    ensures
        runs[i].max_sequence < runs[j].min_sequence,
    decreases j - i,
{
    assert(adjacent(runs[j - 1], runs[j - 1 + 1]));
    if i < j - 1 {
        spans_before(runs, i, j - 1);
        assert(runs[j - 1].min_sequence <= runs[j - 1].max_sequence);
    }
}

/// **A well-formed run set owns every sequence once**: each sequence between
/// the oldest run's start and the newest run's end lies in exactly one run, so
/// resolution order is total.
pub proof fn a_run_set_owns_every_sequence_once(runs: Seq<RunView>, s: int)
    requires
        runs.len() > 0,
        all_forwards(runs),
        all_adjacent(runs),
        runs[0].min_sequence <= s <= runs.last().max_sequence,
    ensures
        exists|i: int| 0 <= i < runs.len() && in_span(#[trigger] runs[i], s),
        forall|i: int, j: int|
            0 <= i < runs.len() && 0 <= j < runs.len() && in_span(#[trigger] runs[i], s) && in_span(
                #[trigger] runs[j],
                s,
            ) ==> i == j,
    decreases runs.len(),
{
    let n = runs.len() - 1;
    assert forall|i: int, j: int|
        0 <= i < runs.len() && 0 <= j < runs.len() && in_span(#[trigger] runs[i], s) && in_span(
            #[trigger] runs[j],
            s,
        ) implies i == j by {
        if i < j {
            spans_before(runs, i, j);
        } else if j < i {
            spans_before(runs, j, i);
        }
    }
    if runs[n].min_sequence <= s {
        assert(in_span(runs[n], s));
    } else {
        let front = runs.drop_last();
        assert(n > 0);
        assert(adjacent(runs[n - 1], runs[n - 1 + 1]));
        assert forall|j: int|
            0 <= j < front.len() - 1
        implies adjacent(front[j], #[trigger] front[j + 1]) by {
            assert(adjacent(runs[j], runs[j + 1]));
        }
        assert forall|j: int|
            0 <= j < front.len()
        implies (#[trigger] front[j]).min_sequence <= front[j].max_sequence by {
            assert(runs[j].min_sequence <= runs[j].max_sequence);
        }
        a_run_set_owns_every_sequence_once(front, s);
        let i = choose|i: int| 0 <= i < front.len() && in_span(#[trigger] front[i], s);
        assert(in_span(runs[i], s));
    }
}

/// **A set position is what readers see**: whatever was there before, the
/// stream stands where it was set, unless that names no partition.
pub proof fn a_set_position_is_read_back(position: Map<PartitionId, u64>, watermark: u64)
    requires
        position.dom().finite(),
        watermark == match scalar_of(position) {
            Some(n) => n,
            None => 0,
        },
    ensures
        ({
            let stands = if position.dom().len() == 0 {
                Map::<PartitionId, u64>::empty().insert(0, watermark)
            } else {
                position
            };
            &&& position.dom().len() > 0 ==> stands == position
            &&& forall|p: PartitionId| #[trigger] applied(stands, p) == applied(position, p)
        }),
{
    if position.dom().len() == 0 {
        assert(position.dom() =~= Set::empty());
    }
}

/// **Where a snapshot stands**: at its recorded position, or, where it recorded
/// none, at its watermark in partition 0.
pub proof fn a_snapshot_stands_where_it_was_recorded(m: SnapshotMeta, p: PartitionId)
    ensures
        m.position@.dom().len() > 0 ==> m.stands_at() == m.position@,
        m.position@.dom().len() == 0 ==> applied(m.stands_at(), p) == if p == 0 {
            m.watermark
        } else {
            0
        },
{
}

/// **Where a chain begins**: at its base, or at the snapshot itself where no base
/// was recorded; and only a snapshot without runs, older than the format that
/// says them, is a chain.
pub proof fn a_chain_begins_at_its_base(m: SnapshotMeta)
    ensures
        m.base_sequence > 0 ==> chain_start(m.base_sequence, m.sequence) == m.base_sequence,
        m.base_sequence == 0 ==> chain_start(m.base_sequence, m.sequence) == m.sequence,
        m.is_chain() <==> m.runs@.len() == 0 && m.format_version == 0,
{
}

/// **Runs are adjacent where the next begins right after the last sequence of the
/// one before**, and a run says its own span.
pub proof fn adjacency_leaves_no_gap(a: RunMeta, b: RunMeta, s: int)
    requires
        a.min_sequence <= a.max_sequence,
        b.min_sequence <= b.max_sequence,
    ensures
        adjacent(a@, b@) <==> a.max_sequence + 1 == b.min_sequence,
        adjacent(a@, b@) ==> (a.min_sequence <= s <= b.max_sequence <==> in_span(a@, s) != in_span(
            b@,
            s,
        )),
        a@.path == a.path@,
        a@.level == a.level,
        a@.min_sequence == a.min_sequence,
        a@.max_sequence == a.max_sequence,
        a@.pairs == a.pairs,
        a@.bytes == a.bytes,
{
}

/// **Offsets may change stream only where one is not known**: two snapshots are
/// of different streams where both name one and source or name differ.
pub proof fn streams_differ_where_both_are_named(m: SnapshotMeta, previous: SnapshotMeta)
    ensures
        m.other_stream(&previous) <==> {
            &&& m.stream is Some
            &&& previous.stream is Some
            &&& {
                ||| m.stream->Some_0.source@ != previous.stream->Some_0.source@
                ||| m.stream->Some_0.name@ != previous.stream->Some_0.name@
            }
        },
{
}

/// **A probe asks for the next sequence**, and reads the last one there can be.
pub proof fn a_probe_asks_for_the_next(sequence: u64)
    ensures
        sequence < u64::MAX ==> (beyond(sequence) matches Probe::Exists(n) && n == sequence + 1),
        sequence == u64::MAX ==> beyond(sequence) == Probe::Read(sequence),
{
}

/// **Whatever the order of a listing, its highest sequence is found**: none of
/// those that the names say is higher.
pub proof fn the_highest_listed_sequence_is_found(names: Seq<Seq<char>>, i: int)
    requires
        0 <= i < names.len(),
    ensures
        named_sequence(names[i]) matches Some(n) ==> {
            &&& sequences_in(names).len() > 0
            &&& n <= sequences_in(names).last()
        },
{
    if named_sequence(names[i]) is Some {
        let n = named_sequence(names[i])->Some_0;
        let a = names.take(i);
        let one = seq![names[i]];
        let b = names.skip(i + 1);
        assert(names =~= (a + one) + b);
        a_listing_gives_its_sequences_ascending(a, one, names[i], 0, 0);
        a_listing_gives_its_sequences_ascending(a + one, b, names[i], 0, 0);
        let v = sequences_in(names);
        broadcast use vstd::seq_lib::group_to_multiset_ensures;

        assert(sequences_in(one) == seq![n as u64]);
        assert(seq![n as u64].contains(n as u64)) by {
            assert(seq![n as u64][0] == n as u64);
        }
        assert(seq![n as u64].to_multiset().count(n as u64) > 0);
        assert(v.to_multiset().count(n as u64) > 0);
        assert(v.contains(n as u64));
        let j = v.index_of(n as u64);
        a_listing_gives_its_sequences_ascending(
            names,
            Seq::empty(),
            names[i],
            j,
            v.len() - 1,
        );
    }
}

/// **A run set is refused only for a fault it has**: a run that ends before it
/// begins, or two in a row with a gap or an overlap between them; and the first
/// such is the one that is named.
pub proof fn a_run_set_is_refused_only_for_a_fault(runs: Seq<RunView>, i: int)
    ensures
        all_forwards(runs) <==> !exists|k: int|
            0 <= k < runs.len() && (#[trigger] runs[k]).min_sequence > runs[k].max_sequence,
        first_backwards(runs, i) ==> 0 <= i < runs.len() && runs[i].min_sequence
            > runs[i].max_sequence && forall|j: int|
            0 <= j < i ==> (#[trigger] runs[j]).min_sequence <= runs[j].max_sequence,
        all_adjacent(runs) && 0 <= i < runs.len() - 1 ==> runs[i].max_sequence + 1 == runs[i
            + 1].min_sequence,
        !all_adjacent(runs) ==> exists|k: int|
            0 <= k < runs.len() - 1 && runs[k].max_sequence + 1 != (#[trigger] runs[k
                + 1]).min_sequence,
        first_gap(runs, i) ==> 0 <= i < runs.len() - 1 && runs[i].max_sequence + 1 != runs[i
            + 1].min_sequence && forall|j: int|
            0 <= j < i ==> runs[j].max_sequence + 1 == (#[trigger] runs[j + 1]).min_sequence,
{
    if all_adjacent(runs) && 0 <= i < runs.len() - 1 {
        assert(adjacent(runs[i], runs[i + 1]));
    }
    if !all_adjacent(runs) {
        let k = choose|k: int|
            0 <= k < runs.len() - 1 && !adjacent(runs[k], #[trigger] runs[k + 1]);
        assert(runs[k].max_sequence + 1 != runs[k + 1].min_sequence);
    }
    if first_gap(runs, i) {
        assert forall|j: int| 0 <= j < i implies runs[j].max_sequence + 1 == (#[trigger] runs[j
            + 1]).min_sequence by {
            assert(adjacent(runs[j], runs[j + 1]));
        }
    }
}

/// **A catalog error names its snapshot**: two without runs, or without their own
/// sequence, are told in the same words only where they are the same.
#[verifier::rlimit(50)]
pub proof fn a_catalog_error_names_its_snapshot(a: u64, b: u64, m: u64, n: u64)
    ensures
        (CatalogError::NoRuns { sequence: a }).words() == (CatalogError::NoRuns {
            sequence: b,
        }).words() <==> a == b,
        (CatalogError::OwnSequenceMissing { sequence: a, newest: m }).words() == (
        CatalogError::OwnSequenceMissing { sequence: b, newest: n }).words() <==> a == b && m == n,
{
    reveal_strlit(" claims the run-set format but lists no runs");
    reveal_strlit(": newest run ends at ");
    reveal_strlit(", so this commit's own sequence is in no run");
    let s = " claims the run-set format but lists no runs"@;
    let t = ", so this commit's own sequence is in no run"@;
    let x = (a as nat, m as nat, 0nat);
    let y = (b as nat, n as nat, 0nat);
    crate::text::numbers_are_told_by_their_places("snapshot "@, x, y, s, t, t);
    crate::text::numbers_are_told_by_their_places(
        "snapshot "@,
        x,
        y,
        ": newest run ends at "@,
        t,
        t,
    );
}

/// **A snapshot may follow another only where no partition goes back and the
/// stream stays the same.**
pub proof fn a_snapshot_follows_only_forward(
    m: SnapshotMeta,
    previous: SnapshotMeta,
    r: Result<(), CatalogError>,
    p: PartitionId,
)
    requires
        call_ensures(SnapshotMeta::advances_from, (&m, &previous), r),
    ensures
        r is Ok ==> applied(m.stands_at(), p) >= applied(previous.stands_at(), p),
        r is Ok && m.stream is Some && previous.stream is Some ==> m.stream->Some_0.source@
            == previous.stream->Some_0.source@ && m.stream->Some_0.name@
            == previous.stream->Some_0.name@,
        r is Err ==> !covers(m.stands_at(), previous.stands_at()) || m.other_stream(&previous),
{
    if r is Ok {
        crate::graph::stream::absent_and_zero_agree(
            m.stands_at(),
            m.stands_at(),
            previous.stands_at(),
        );
        assert(applied(m.stands_at(), p) >= applied(previous.stands_at(), p));
    }
}

/// **The latest snapshot is looked for from what is known**: a listing where nothing
/// is, the next sequence otherwise, and the one before the first that is missing
/// is read.
pub proof fn the_latest_snapshot_is_probed_for(
    cached: u64,
    sequence: u64,
    start: Probe,
    there: Probe,
    missing: Probe,
)
    requires
        0 < sequence < u64::MAX,
        cached < u64::MAX,
        call_ensures(probe_start, (cached,), start),
        call_ensures(probe_answered, (sequence, true), there),
        call_ensures(probe_answered, (sequence, false), missing),
    ensures
        cached == 0 <==> start == Probe::List,
        cached > 0 ==> (start matches Probe::Exists(n) && n == cached + 1),
        there matches Probe::Exists(n) && n == sequence + 1,
        missing matches Probe::Read(n) && n == sequence - 1,
{
}

/// **A listing is probed past its highest sequence.**
pub proof fn a_listing_is_probed_past_its_highest(
    names: Vec<String>,
    i: int,
    p: Probe,
)
    requires
        call_ensures(probe_listed, (&names,), p),
        0 <= i < names@.len(),
        named_sequence(names@[i]@) matches Some(n) && 0 < n,
    ensures
        match p {
            Probe::Exists(n) => n > named_sequence(names@[i]@)->Some_0,
            Probe::Read(n) => n == u64::MAX,
            _ => false,
        },
{
    the_highest_listed_sequence_is_found(text_views(names@), i);
}

/// **A position that is recorded is where the snapshot stands**, and nothing else of
/// it changes but the marks that say so.
pub proof fn a_recorded_position_is_where_it_stands(
    meta: &mut SnapshotMeta,
    position: StreamPosition,
    p: PartitionId,
)
    requires
        position@.dom().finite(),
        call_ensures(SnapshotMeta::set_stream_position, (meta, position), ()),
    ensures
        applied(final(meta).stands_at(), p) == applied(position@, p),
        final(meta).sequence == old(meta).sequence && final(meta).data_files
            == old(meta).data_files,
        final(meta).format_version >= old(meta).format_version,
{
    if position@.dom().len() == 0 {
        assert(position@.dom() =~= Set::empty());
        assert(position@ =~= Map::empty());
    }
}

/// **A catalog error says what it found**: the snapshot, and the runs, positions or
/// streams that do not fit.
#[verifier::rlimit(50)]
pub proof fn a_catalog_error_says_what_it_found(e: CatalogError, s: String)
    requires
        call_ensures(CatalogError::to_text, (&e,), s),
    ensures
        match e {
            CatalogError::NoRuns { sequence } => says(s@, decimal(sequence as nat)),
            CatalogError::SpansBackwards { sequence, run } => says(s@, decimal(sequence as nat))
                && says(s@, run.path@) && says(
                s@,
                decimal(run.min_sequence as nat) + "..="@ + decimal(run.max_sequence as nat),
            ),
            CatalogError::NotAdjacent { sequence, older, newer } => says(
                s@,
                decimal(sequence as nat),
            ) && says(
                s@,
                decimal(older.min_sequence as nat) + "..="@ + decimal(older.max_sequence as nat),
            ) && says(
                s@,
                decimal(newer.min_sequence as nat) + "..="@ + decimal(newer.max_sequence as nat),
            ),
            CatalogError::OwnSequenceMissing { sequence, newest } => says(
                s@,
                decimal(sequence as nat),
            ) && says(s@, decimal(newest as nat)),
            CatalogError::PositionBackwards { sequence, after, before } => says(
                s@,
                decimal(sequence as nat),
            ) && says(s@, position_text(after@)) && says(s@, position_text(before@)),
            CatalogError::StreamChanged { sequence, stream, previous, committed } => says(
                s@,
                decimal(sequence as nat),
            ) && says(s@, stream_text(stream@)) && says(s@, decimal(previous as nat)) && says(
                s@,
                stream_text(committed@),
            ),
        },
{
    let pre = "snapshot "@;
    let t = s@;
    match e {
        CatalogError::NoRuns { sequence } => {
            let n = decimal(sequence as nat);
            said_between(t, pre, n, t.skip((pre + n).len() as int));
        },
        CatalogError::SpansBackwards { sequence, run } => {
            let n = decimal(sequence as nat);
            let a = pre + n + ": run "@;
            let b = a + run.path@ + " spans backwards ("@;
            let span = span_text(run.min_sequence, run.max_sequence);
            said_between(t, pre, n, t.skip((pre + n).len() as int));
            said_between(t, a, run.path@, t.skip((a + run.path@).len() as int));
            said_between(t, b, span, ")"@);
        },
        CatalogError::NotAdjacent { sequence, older, newer } => {
            let n = decimal(sequence as nat);
            let a = pre + n + ": runs "@;
            let x = span_text(older.min_sequence, older.max_sequence);
            let y = span_text(newer.min_sequence, newer.max_sequence);
            let b = a + x + " and "@;
            said_between(t, pre, n, t.skip((pre + n).len() as int));
            said_between(t, a, x, t.skip((a + x).len() as int));
            said_between(t, b, y, t.skip((b + y).len() as int));
        },
        CatalogError::OwnSequenceMissing { sequence, newest } => {
            let n = decimal(sequence as nat);
            let a = pre + n + ": newest run ends at "@;
            let m = decimal(newest as nat);
            said_between(t, pre, n, t.skip((pre + n).len() as int));
            said_between(t, a, m, t.skip((a + m).len() as int));
        },
        CatalogError::PositionBackwards { sequence, after, before } => {
            let n = decimal(sequence as nat);
            let a = pre + n + " moves the stream position backwards: "@;
            let x = position_text(after@);
            let y = position_text(before@);
            let b = a + x + " does not cover "@;
            said_between(t, pre, n, t.skip((pre + n).len() as int));
            said_between(t, a, x, t.skip((a + x).len() as int));
            said_between(t, b, y, t.skip((b + y).len() as int));
        },
        CatalogError::StreamChanged { sequence, stream, previous, committed } => {
            let n = decimal(sequence as nat);
            let a = pre + n + " claims stream "@;
            let x = stream_text(stream@);
            let b = a + x + " but snapshot "@;
            let m = decimal(previous as nat);
            let c = b + m + " committed "@;
            let y = stream_text(committed@);
            said_between(t, pre, n, t.skip((pre + n).len() as int));
            said_between(t, a, x, t.skip((a + x).len() as int));
            said_between(t, b, m, t.skip((b + m).len() as int));
            said_between(t, c, y, t.skip((c + y).len() as int));
        },
    }
}

} // verus!
