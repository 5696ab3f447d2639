//! **Storage-side compaction**: merge a committed layer chain into one base by
//! reading the mapped files, with no forest and no lock involved.
//!
//! # The registry without an O(state) sort
//!
//! Every layer's registry is already sorted. The only obstacle to merging them
//! directly is that a root recorded in an older layer may since have been
//! absorbed, and re-resolving it moves it downward, which breaks the order. But
//! the roots that moved are bounded by change, not by state. So:
//!
//! 1. k-way merge the layers' registry runs, resolving each root. Entries that
//!    resolve to themselves are already in order; the rest are corrections.
//! 2. Collect only the corrections, sort them, and merge the two sorted
//!    streams.

use std::sync::Arc;
use vstd::prelude::*;

use super::base::{PuffinBase, RegistryCursor};
use super::codec::{
    base_blobs, scope_blob, table_blobs, WriteOptions, plain_blob, GLOBAL_BLOB_TYPE,
    SCOPE_BLOB_TYPE,
};
use super::layered::{merge_all, LayeredBase};
use super::members::MemberEncoding;
use super::payload::{freeze, payload_content};
use super::puffin::{blob_views, Blob, BlobView};
use super::registry::{registry_bytes, registry_le, registry_type, RegistryEncoding, RegistryWriter};
use super::sorted::{distinct, list_registry, registry_listing};
use super::table::{table_bytes, TableWriter};
use crate::graph::base::{PairCursor, RoutingBase};
use crate::graph::snapshot::{ScopePairs, SnapshotView};
use crate::graph::types::{NodeId, ScopeId};

verus! {

/// What a compaction produced, for logging and assertions.
#[derive(Debug, Clone, Copy, PartialEq, Eq, Structural)]
pub struct CompactionStats {
    pub shared_pairs: u64,
    pub overlay_pairs: u64,
    pub scopes: u64,
    pub registry_entries: u64,
    /// Registry entries whose root had been absorbed by a newer layer and so
    /// had to be re-sorted. Bounded by change.
    pub registry_corrections: u64,
}

impl Default for CompactionStats {
    fn default() -> (s: CompactionStats)
        ensures
            s.shared_pairs == 0 && s.overlay_pairs == 0 && s.scopes == 0 && s.registry_entries == 0
                && s.registry_corrections == 0,
    {
        CompactionStats {
            shared_pairs: 0,
            overlay_pairs: 0,
            scopes: 0,
            registry_entries: 0,
            registry_corrections: 0,
        }
    }
}

// --- the registry runs ---------------------------------------------------------------------------

/// `a` comes before `b`.
pub open spec fn entry_before(a: (NodeId, ScopeId), b: (NodeId, ScopeId)) -> bool {
    a.0 < b.0 || (a.0 == b.0 && a.1 < b.1)
}

/// Which of the first `n` runs has the least next entry; the oldest of those
/// that have it.
pub open spec fn least_run(runs: Seq<Seq<(NodeId, ScopeId)>>, n: nat) -> Option<int>
    decreases n,
{
    if n == 0 {
        None
    } else {
        let i = n - 1;
        let best = least_run(runs, i as nat);
        if runs[i].len() == 0 {
            best
        } else {
            match best {
                None => Some(i),
                Some(b) => if entry_before(runs[i][0], runs[b][0]) {
                    Some(i)
                } else {
                    best
                },
            }
        }
    }
}

/// Entries in the first `n` runs.
pub open spec fn run_total(runs: Seq<Seq<(NodeId, ScopeId)>>, n: nat) -> nat
    decreases n,
{
    if n == 0 {
        0
    } else {
        run_total(runs, (n - 1) as nat) + runs[n - 1].len()
    }
}

/// The merge of `runs`: always the least next entry.
pub open spec fn merged_runs(runs: Seq<Seq<(NodeId, ScopeId)>>, left: nat) -> Seq<
    (NodeId, ScopeId),
>
    decreases left,
{
    match least_run(runs, runs.len()) {
        None => Seq::empty(),
        Some(i) => if left == 0 {
            Seq::empty()
        } else {
            seq![runs[i][0]] + merged_runs(runs.update(i, runs[i].drop_first()), (left - 1) as nat)
        },
    }
}

pub open spec fn all_merged(runs: Seq<Seq<(NodeId, ScopeId)>>) -> Seq<(NodeId, ScopeId)> {
    merged_runs(runs, run_total(runs, runs.len()))
}

pub proof fn least_run_is(runs: Seq<Seq<(NodeId, ScopeId)>>, n: nat)
    requires
        n <= runs.len(),
    ensures
        match least_run(runs, n) {
            None => run_total(runs, n) == 0 && forall|j: int| 0 <= j < n ==> (#[trigger] runs[j]).len() == 0,
            Some(i) => 0 <= i < n && runs[i].len() > 0 && run_total(runs, n) > 0 && forall|j: int|
                0 <= j < n && (#[trigger] runs[j]).len() > 0 ==> registry_le(runs[i][0], runs[j][0]),
        },
    decreases n,
{
    if n > 0 {
        least_run_is(runs, (n - 1) as nat);
    }
}

pub proof fn run_total_drops(runs: Seq<Seq<(NodeId, ScopeId)>>, i: int, n: nat)
    requires
        n <= runs.len(),
        0 <= i < runs.len(),
        runs[i].len() > 0,
    ensures
        run_total(runs.update(i, runs[i].drop_first()), n) == if i < n {
            run_total(runs, n) - 1
        } else {
            run_total(runs, n) as int
        },
    decreases n,
{
    if n > 0 {
        run_total_drops(runs, i, (n - 1) as nat);
    }
}

/// The layers' registries, oldest first.
pub open spec fn registry_runs(l: &LayeredBase) -> Seq<Seq<(NodeId, ScopeId)>> {
    l.stack().map_values(|b: Arc<PuffinBase>| b.registry_entries())
}

/// A walk over the entries of all layers, in order, with nothing buffered but
/// each layer's next entry.
struct RegistryMerge {
    heads: Vec<Option<(NodeId, ScopeId)>>,
    cursors: Vec<RegistryCursor>,
}

/// What is left of one run.
spec fn run_left(
    b: &PuffinBase,
    head: Option<(NodeId, ScopeId)>,
    c: RegistryCursor,
) -> Seq<(NodeId, ScopeId)> {
    match head {
        Some(e) => seq![e] + b.registry_rest(c),
        None => Seq::empty(),
    }
}

impl RegistryMerge {
    spec fn runs(&self, l: &LayeredBase) -> Seq<Seq<(NodeId, ScopeId)>> {
        Seq::new(
            l.stack().len(),
            |i: int| run_left(&*l.stack()[i], self.heads@[i], self.cursors@[i]),
        )
    }

    spec fn wf(&self, l: &LayeredBase) -> bool {
        &&& self.heads@.len() == l.stack().len()
        &&& self.cursors@.len() == l.stack().len()
        &&& l.wf()
    }

    fn start(l: &LayeredBase) -> (m: RegistryMerge)
        requires
            l.wf(),
        ensures
            m.wf(l),
            m.runs(l) == registry_runs(l),
    {
        let mut heads: Vec<Option<(NodeId, ScopeId)>> = Vec::new();
        let mut cursors: Vec<RegistryCursor> = Vec::new();
        let mut i: usize = 0;
        while i < l.layers()
            invariant
                i <= l.stack().len(),
                l.wf(),
                heads@.len() == i,
                cursors@.len() == i,
                forall|j: int|
                    0 <= j < i ==> run_left(&*l.stack()[j], #[trigger] heads@[j], cursors@[j])
                        == l.stack()[j].registry_entries(),
            decreases l.stack().len() - i,
        {
            let layer = l.layer(i);
            assert(l.stack()[i as int].wf());
            let mut c = layer.registry_start();
            let ghost all = layer.registry_entries();
            let head = layer.registry_next(&mut c);
            heads.push(head);
            cursors.push(c);
            assert(run_left(&*l.stack()[i as int], head, c) =~= all);
            i += 1;
        }
        let m = RegistryMerge { heads, cursors };
        assert(m.runs(l) =~= registry_runs(l));
        m
    }

    /// The next entry.
    fn next(&mut self, l: &LayeredBase) -> (r: Option<(NodeId, ScopeId)>)
        requires
            old(self).wf(l),
        ensures
            final(self).wf(l),
            ({
                let rest = all_merged(old(self).runs(l));
                &&& (r is None) == (rest.len() == 0)
                &&& r matches Some(e) ==> e == rest[0] && all_merged(final(self).runs(l))
                    == rest.drop_first()
                &&& r is Some ==> run_total(final(self).runs(l), l.stack().len()) < run_total(
                    old(self).runs(l),
                    l.stack().len(),
                )
            }),
    {
        let ghost runs = self.runs(l);
        let n: usize = l.layers();
        let mut best: Option<usize> = None;
        let mut least: (NodeId, ScopeId) = (0, 0);
        let mut i: usize = 0;
        while i < n
            invariant
                i <= n,
                n == l.stack().len(),
                self.wf(l),
                runs == self.runs(l),
                match best {
                    Some(b) => b < i && least_run(runs, i as nat) == Some(b as int)
                        && self.heads@[b as int] == Some(least),
                    None => least_run(runs, i as nat) is None,
                },
            decreases n - i,
        {
            match self.heads[i] {
                None => {},
                Some(e) => {
                    assert(runs[i as int][0] == e);
                    let better: bool = match best {
                        None => true,
                        Some(b) => {
                            assert(runs[b as int][0] == least);
                            e.0 < least.0 || (e.0 == least.0 && e.1 < least.1)
                        },
                    };
                    if better {
                        best = Some(i);
                        least = e;
                    }
                },
            }
            i += 1;
        }
        proof {
            least_run_is(runs, n as nat);
        }
        match best {
            None => None,
            Some(b) => {
                let ghost was = runs[b as int];
                assert(l.stack()[b as int].wf());
                let layer = l.layer(b);
                let mut c = self.cursors[b];
                let ghost rest = layer.registry_rest(c);
                let head = layer.registry_next(&mut c);
                self.heads.set(b, head);
                self.cursors.set(b, c);
                proof {
                    assert(was.drop_first() =~= rest);
                    assert(run_left(&*l.stack()[b as int], head, c) =~= rest);
                    assert(self.runs(l) =~= runs.update(b as int, rest));
                    run_total_drops(runs, b as int, n as nat);
                    let all = all_merged(runs);
                    assert(all[0] == least);
                    assert(all.drop_first() =~= all_merged(self.runs(l)));
                }
                Some(least)
            },
        }
    }
}

// --- compacting the registry -----------------------------------------------------------------------

/// The entries whose root is still live.
pub open spec fn live_entries(shared: Map<NodeId, NodeId>, m: Seq<(NodeId, ScopeId)>) -> Seq<
    (NodeId, ScopeId),
>
    decreases m.len(),
{
    if m.len() == 0 {
        Seq::empty()
    } else {
        let before = live_entries(shared, m.drop_last());
        if shared.contains_key(m.last().0) {
            before
        } else {
            before.push(m.last())
        }
    }
}

/// The entries whose root was absorbed, at the root it is now part of.
pub open spec fn moved_entries(shared: Map<NodeId, NodeId>, m: Seq<(NodeId, ScopeId)>) -> Seq<
    (NodeId, ScopeId),
>
    decreases m.len(),
{
    if m.len() == 0 {
        Seq::empty()
    } else {
        let before = moved_entries(shared, m.drop_last());
        if shared.contains_key(m.last().0) {
            before.push((shared[m.last().0], m.last().1))
        } else {
            before
        }
    }
}

/// How many of `corrections` from `from` on come before the first that is
/// larger than `e`.
pub open spec fn due(corrections: Seq<(NodeId, ScopeId)>, from: int, e: (NodeId, ScopeId)) -> int
    decreases corrections.len() - from,
{
    if 0 <= from < corrections.len() && registry_le(corrections[from], e) {
        due(corrections, from + 1, e)
    } else {
        from
    }
}

/// How many corrections were written after the entries `m`.
pub open spec fn woven_upto(
    m: Seq<(NodeId, ScopeId)>,
    corrections: Seq<(NodeId, ScopeId)>,
) -> int
    decreases m.len(),
{
    if m.len() == 0 {
        0
    } else {
        due(corrections, woven_upto(m.drop_last(), corrections), m.last())
    }
}

/// The entries `m` with the corrections that are due before each.
pub open spec fn woven(
    m: Seq<(NodeId, ScopeId)>,
    corrections: Seq<(NodeId, ScopeId)>,
) -> Seq<(NodeId, ScopeId)>
    decreases m.len(),
{
    if m.len() == 0 {
        Seq::empty()
    } else {
        let from = woven_upto(m.drop_last(), corrections);
        let to = woven_upto(m, corrections);
        (woven(m.drop_last(), corrections) + corrections.subrange(from, to)).push(m.last())
    }
}

/// The compacted registry of the merged entries `m`.
pub open spec fn compacted_entries(shared: Map<NodeId, NodeId>, m: Seq<(NodeId, ScopeId)>) -> Seq<
    (NodeId, ScopeId),
> {
    let corrections = registry_listing(moved_entries(shared, m));
    let kept = live_entries(shared, m);
    distinct(woven(kept, corrections) + corrections.skip(woven_upto(kept, corrections)))
}

/// The registry that compacting `l` gives.
pub open spec fn compacted_registry(l: &LayeredBase) -> Seq<(NodeId, ScopeId)> {
    compacted_entries(l.shared_links(), all_merged(registry_runs(l)))
}

pub proof fn due_is(corrections: Seq<(NodeId, ScopeId)>, from: int, e: (NodeId, ScopeId))
    requires
        0 <= from <= corrections.len(),
    ensures
        from <= due(corrections, from, e) <= corrections.len(),
        forall|i: int| from <= i < due(corrections, from, e) ==> registry_le(#[trigger] corrections[i], e),
        due(corrections, from, e) < corrections.len() ==> !registry_le(corrections[due(corrections, from, e)], e),
    decreases corrections.len() - from,
{
    if from < corrections.len() && registry_le(corrections[from], e) {
        due_is(corrections, from + 1, e);
    }
}

pub proof fn woven_upto_is(m: Seq<(NodeId, ScopeId)>, corrections: Seq<(NodeId, ScopeId)>)
    ensures
        0 <= woven_upto(m, corrections) <= corrections.len(),
    decreases m.len(),
{
    if m.len() > 0 {
        woven_upto_is(m.drop_last(), corrections);
        due_is(corrections, woven_upto(m.drop_last(), corrections), m.last());
    }
}

/// A flat registry being written, without repeats of the last entry.
struct DistinctWriter {
    writer: RegistryWriter,
    last: Option<(NodeId, ScopeId)>,
}

impl DistinctWriter {
    spec fn wf(&self, written: Seq<(NodeId, ScopeId)>) -> bool {
        &&& self.writer.wf()
        &&& self.writer.encoding() == RegistryEncoding::Flat
        &&& self.writer.kept() == distinct(written)
        &&& self.last == if distinct(written).len() == 0 {
            None
        } else {
            Some(distinct(written).last())
        }
    }

    fn push(&mut self, e: (NodeId, ScopeId), Ghost(written): Ghost<Seq<(NodeId, ScopeId)>>)
        requires
            old(self).wf(written),
        ensures
            final(self).wf(written.push(e)),
    {
        assert(written.push(e).drop_last() =~= written);
        let repeat: bool = match self.last {
            Some(last) => last.0 == e.0 && last.1 == e.1,
            None => false,
        };
        if repeat {
            return;
        }
        self.last = Some(e);
        self.writer.push(e.0, e.1);
    }
}

/// Merges the layers' registry runs into one sorted, deduped, fully-resolved
/// payload. Gives its blob, where it has entries, and the numbers of entries
/// and corrections.
fn compact_registry(l: &LayeredBase) -> (r: (Option<(&'static str, bytes::Bytes)>, u64, u64))
    requires
        l.wf(),
    ensures
        ({
            let entries = compacted_registry(l);
            &&& match r.0 {
                None => entries.len() == 0,
                Some(blob) => entries.len() > 0 && blob.0@ == registry_type(RegistryEncoding::Flat)
                    && payload_content(blob.1) == registry_bytes(
                    RegistryEncoding::Flat,
                    entries,
                    super::registry::BLOCK_BYTES as nat,
                )
            }
            &&& r.1 == entries.len()
            &&& r.2 == registry_listing(
                moved_entries(l.shared_links(), all_merged(registry_runs(l))),
            ).len() as u64
        }),
{
    let ghost shared = l.shared_links();
    let ghost all = all_merged(registry_runs(l));
    // Pass 1: the entries whose root moved. Only these break the order.
    let mut moved: Vec<(NodeId, ScopeId)> = Vec::new();
    let mut walk = RegistryMerge::start(l);
    let ghost mut done: Seq<(NodeId, ScopeId)> = Seq::empty();
    assert(done + all_merged(walk.runs(l)) =~= all);
    loop
        invariant_except_break
            done + all_merged(walk.runs(l)) == all,
        invariant
            l.wf(),
            walk.wf(l),
            shared == l.shared_links(),
            moved@ == moved_entries(shared, done),
        ensures
            done == all,
        decreases run_total(walk.runs(l), l.stack().len()),
    {
        let ghost rest = all_merged(walk.runs(l));
        match walk.next(l) {
            None => {
                assert(done =~= all);
                break ;
            },
            Some(e) => {
                let ghost was = done;
                proof {
                    done = done.push(e);
                    assert(done.drop_last() =~= was);
                    assert(was + rest =~= done + rest.drop_first());
                }
                match l.shared_parent(e.0) {
                    Some(live) => moved.push((live, e.1)),
                    None => {},
                }
            },
        }
    }
    let corrections = list_registry(moved);
    let ghost fixes = corrections@;
    assert(fixes == registry_listing(moved_entries(shared, all)));
    // Pass 2: merge the entries in order with the sorted corrections.
    let mut out = DistinctWriter {
        writer: RegistryWriter::new(RegistryEncoding::Flat),
        last: None,
    };
    let ghost mut written: Seq<(NodeId, ScopeId)> = Seq::empty();
    let mut walk2 = RegistryMerge::start(l);
    let mut ci: usize = 0;
    proof {
        done = Seq::empty();
        assert(done + all_merged(walk2.runs(l)) =~= all);
        assert(distinct(written) =~= Seq::empty());
    }
    loop
        invariant_except_break
            done + all_merged(walk2.runs(l)) == all,
        invariant
            l.wf(),
            walk2.wf(l),
            shared == l.shared_links(),
            fixes == corrections@,
            out.wf(written),
            written == woven(live_entries(shared, done), fixes),
            ci == woven_upto(live_entries(shared, done), fixes),
        ensures
            done == all,
        decreases run_total(walk2.runs(l), l.stack().len()),
    {
        let ghost rest = all_merged(walk2.runs(l));
        match walk2.next(l) {
            None => {
                assert(done =~= all);
                break ;
            },
            Some(e) => {
                let ghost was = done;
                let ghost kept = live_entries(shared, was);
                proof {
                    done = done.push(e);
                    assert(done.drop_last() =~= was);
                    assert(was + rest =~= done + rest.drop_first());
                    woven_upto_is(kept, fixes);
                }
                match l.shared_parent(e.0) {
                    // Handled as a correction.
                    Some(_) => {},
                    None => {
                        let ghost from = ci as int;
                        let ghost before = written;
                        proof {
                            due_is(fixes, from, e);
                            assert(kept.push(e).drop_last() =~= kept);
                            assert(written =~= before + fixes.subrange(from, from));
                        }
                        while ci < corrections.len() && at_most(corrections[ci], e)
                            invariant
                                from <= ci <= corrections@.len(),
                                0 <= from,
                                fixes == corrections@,
                                out.wf(written),
                                written == before + fixes.subrange(from, ci as int),
                                due(fixes, from, e) == due(fixes, ci as int, e),
                            decreases corrections.len() - ci,
                        {
                            let fix: (NodeId, ScopeId) = corrections[ci];
                            out.push(fix, Ghost(written));
                            proof {
                                written = written.push(fix);
                                assert(written =~= before + fixes.subrange(from, ci + 1));
                            }
                            ci += 1;
                        }
                        out.push(e, Ghost(written));
                        proof {
                            written = written.push(e);
                            assert(ci == due(fixes, from, e));
                            assert(written == woven(kept.push(e), fixes));
                        }
                    },
                }
            },
        }
    }
    let ghost kept = live_entries(shared, all);
    let ghost from = ci as int;
    let ghost before = written;
    proof {
        woven_upto_is(kept, fixes);
        assert(written =~= before + fixes.subrange(from, from));
    }
    while ci < corrections.len()
        invariant
            from <= ci <= corrections@.len(),
            0 <= from,
            fixes == corrections@,
            out.wf(written),
            written == before + fixes.subrange(from, ci as int),
        decreases corrections.len() - ci,
    {
        let fix: (NodeId, ScopeId) = corrections[ci];
        out.push(fix, Ghost(written));
        proof {
            written = written.push(fix);
            assert(written =~= before + fixes.subrange(from, ci + 1));
        }
        ci += 1;
    }
    assert(fixes.subrange(from, fixes.len() as int) =~= fixes.skip(from));
    assert(distinct(written) == compacted_registry(l));
    let count: u64 = out.writer.entries();
    proof {
        out.writer.flat_count_is_exact();
    }
    (out.writer.finish(), count, corrections.len() as u64)
}

fn at_most(a: (NodeId, ScopeId), b: (NodeId, ScopeId)) -> (r: bool)
    ensures
        r == registry_le(a, b),
{
    a.0 < b.0 || (a.0 == b.0 && a.1 <= b.1)
}

/// The tables that compacting `scopes` gives: the merge of each, without the
/// scopes that resolved to nothing.
pub open spec fn compacted_scopes(l: &LayeredBase, scopes: Seq<ScopeId>) -> Seq<ScopePairs>
    decreases scopes.len(),
{
    if scopes.len() == 0 {
        Seq::empty()
    } else {
        let before = compacted_scopes(l, scopes.drop_last());
        let pairs = l.overlay_stream(scopes.last());
        if pairs.len() == 0 {
            before
        } else {
            before.push(ScopePairs { scope: scopes.last(), pairs })
        }
    }
}

/// The tables that compacting `l` gives.
pub open spec fn compacted_tables(l: &LayeredBase) -> SnapshotView {
    SnapshotView { global: l.shared_stream(), scopes: compacted_scopes(l, l.scope_list()) }
}

/// Compaction writes a flat registry, no filters and no member index.
pub open spec fn compact_options() -> WriteOptions {
    WriteOptions {
        filter_bits: 0,
        registry: RegistryEncoding::Flat,
        member_index: false,
        members: MemberEncoding::Blocked,
    }
}

/// Pairs of all `scopes` together, modulo the counter's width.
pub open spec fn pairs_total(scopes: Seq<ScopePairs>) -> u64
    decreases scopes.len(),
{
    if scopes.len() == 0 {
        0
    } else {
        pairs_total(scopes.drop_last()).wrapping_add(scopes.last().pairs.len() as u64)
    }
}

/// The table of one level, and how many pairs it has.
fn merged_table(l: &LayeredBase, level: Option<ScopeId>) -> (r: (Vec<u8>, u64))
    requires
        l.wf(),
    ensures
        r.0@ == table_bytes(merge_all(l.tables(level))),
        r.1 == merge_all(l.tables(level)).len(),
{
    let ghost all = merge_all(l.tables(level));
    let mut t = TableWriter::new();
    let mut c: PairCursor = match level {
        None => l.shared_start(),
        Some(scope) => l.overlay_start(scope),
    };
    let ghost mut rest = super::layered::merge_rest(l.tables(level), c);
    assert(t.pairs() + rest =~= all);
    loop
        invariant_except_break
            rest == super::layered::merge_rest(l.tables(level), c),
            t.pairs() + rest == all,
        invariant
            l.wf(),
            t.wf(),
        ensures
            t.pairs() == all,
        decreases rest.len(),
    {
        let next = match level {
            None => l.shared_next(&mut c),
            Some(scope) => l.overlay_next(scope, &mut c),
        };
        match next {
            None => {
                assert(t.pairs() =~= all);
                break ;
            },
            Some(p) => {
                let ghost was = t.pairs();
                t.push(p.0, p.1);
                proof {
                    assert(was + rest =~= t.pairs() + rest.drop_first());
                    rest = rest.drop_first();
                }
            },
        }
    }
    let n: u64 = t.count();
    (t.close(), n)
}

/// Merges `layers` into the blob set for a single self-contained base.
pub fn compact_layers(layers: &LayeredBase, sequence: u64) -> (r: (Vec<Blob>, CompactionStats))
    requires
        layers.wf(),
    ensures
        blob_views(r.0@) == base_blobs(
            compacted_tables(layers),
            compacted_registry(layers),
            compact_options(),
            sequence as i64,
        ),
        ({
            let t = compacted_tables(layers);
            &&& r.1.shared_pairs == t.global.len()
            &&& r.1.overlay_pairs == pairs_total(t.scopes)
            &&& r.1.scopes == t.scopes.len()
            &&& r.1.registry_entries == compacted_registry(layers).len()
            &&& r.1.registry_corrections == registry_listing(
                moved_entries(layers.shared_links(), all_merged(registry_runs(layers))),
            ).len() as u64
        }),
{
    let seq: i64 = sequence as i64;
    let ghost t = compacted_tables(layers);
    let mut blobs: Vec<Blob> = Vec::new();
    // The merge yields every key once, in order, fully resolved.
    let (shared, shared_pairs) = merged_table(layers, None);
    blobs.push(super::codec::make_blob(GLOBAL_BLOB_TYPE, freeze(shared), seq));
    let scopes = layers.scopes();
    let ghost list = layers.scope_list();
    let mut overlay_pairs: u64 = 0;
    let mut scope_count: u64 = 0;
    let mut i: usize = 0;
    let ghost head = seq![plain_blob(GLOBAL_BLOB_TYPE@, table_bytes(t.global), seq)];
    assert(blob_views(blobs@) =~= head + scope_blobs(Seq::empty(), seq));
    while i < scopes.len()
        invariant
            i <= scopes.len(),
            layers.wf(),
            list == layers.scope_list(),
            scopes@ == list,
            blob_views(blobs@) == head + scope_blobs(
                compacted_scopes(layers, list.take(i as int)),
                seq,
            ),
            overlay_pairs == pairs_total(compacted_scopes(layers, list.take(i as int))),
            scope_count == compacted_scopes(layers, list.take(i as int)).len(),
            scope_count <= i,
        decreases scopes.len() - i,
    {
        let scope: ScopeId = scopes[i];
        let ghost before = compacted_scopes(layers, list.take(i as int));
        let ghost was = blobs@;
        assert(list.take(i + 1).drop_last() =~= list.take(i as int));
        let (data, count) = merged_table(layers, Some(scope));
        if count > 0 {
            overlay_pairs = overlay_pairs.wrapping_add(count);
            scope_count = scope_count + 1;
            blobs.push(super::codec::make_scope_blob(SCOPE_BLOB_TYPE, freeze(data), scope, seq));
            proof {
                let s = ScopePairs { scope, pairs: layers.overlay_stream(scope) };
                assert(compacted_scopes(layers, list.take(i + 1)) == before.push(s));
                assert(before.push(s).drop_last() =~= before);
                let one = scope_blob(SCOPE_BLOB_TYPE@, table_bytes(s.pairs), scope, seq);
                assert(blob_views(blobs@) =~= blob_views(was).push(one));
                assert(scope_blobs(before.push(s), seq) =~= scope_blobs(before, seq).push(one));
                assert(blob_views(blobs@) =~= head + scope_blobs(before.push(s), seq));
            }
        }
        i += 1;
    }
    assert(list.take(i as int) =~= list);
    assert(blob_views(blobs@) =~= table_blobs(t, seq));
    let (registry, registry_entries, registry_corrections) = compact_registry(layers);
    let ghost tables = blob_views(blobs@);
    match registry {
        None => {},
        Some((blob_type, data)) => {
            blobs.push(super::codec::make_blob(blob_type, data, seq));
        },
    }
    assert(blob_views(blobs@) =~= base_blobs(
        t,
        compacted_registry(layers),
        compact_options(),
        seq,
    ));
    let stats = CompactionStats {
        shared_pairs,
        overlay_pairs,
        scopes: scope_count,
        registry_entries,
        registry_corrections,
    };
    (blobs, stats)
}

/// The table blobs of `scopes`.
pub open spec fn scope_blobs(scopes: Seq<ScopePairs>, seq: i64) -> Seq<BlobView> {
    Seq::new(
        scopes.len(),
        |i: int| scope_blob(SCOPE_BLOB_TYPE@, table_bytes(scopes[i].pairs), scopes[i].scope, seq),
    )
}

/// **Compaction keeps each scope that has pairs**, in order, with the merge of its
/// tables, and no other.
pub proof fn compaction_keeps_each_scope(
    l: &LayeredBase,
    a: Seq<ScopeId>,
    b: Seq<ScopeId>,
    s: ScopeId,
)
    ensures
        compacted_scopes(l, a + b) == compacted_scopes(l, a) + compacted_scopes(l, b),
        compacted_scopes(l, seq![s]) == if l.overlay_stream(s).len() == 0 {
            Seq::empty()
        } else {
            seq![ScopePairs { scope: s, pairs: l.overlay_stream(s) }]
        },
    decreases b.len(),
{
    let one = seq![s];
    assert(one.drop_last() =~= Seq::empty());
    assert(compacted_scopes(l, Seq::empty()) =~= Seq::empty());
    assert(one.last() == s);
    assert(compacted_scopes(l, one) =~= if l.overlay_stream(s).len() == 0 {
        Seq::empty()
    } else {
        seq![ScopePairs { scope: s, pairs: l.overlay_stream(s) }]
    });
    if b.len() == 0 {
        assert(a + b =~= a);
        assert(compacted_scopes(l, a) + compacted_scopes(l, b) =~= compacted_scopes(l, a));
    } else {
        compaction_keeps_each_scope(l, a, b.drop_last(), s);
        assert((a + b).drop_last() =~= a + b.drop_last());
        assert((a + b).last() == b.last());
        assert(compacted_scopes(l, a + b) =~= compacted_scopes(l, a) + compacted_scopes(l, b));
    }
}

/// **Pairs add up**: those of one scope are as many as it has, and two lists of
/// scopes have the pairs of both, modulo the counter's width.
pub proof fn pairs_add_up(a: Seq<ScopePairs>, b: Seq<ScopePairs>, s: ScopePairs)
    requires
        s.pairs.len() <= u64::MAX,
    ensures
        pairs_total(Seq::empty()) == 0,
        pairs_total(seq![s]) == s.pairs.len(),
        pairs_total(a + b) == pairs_total(a).wrapping_add(pairs_total(b)),
    decreases b.len(),
{
    assert(seq![s].drop_last() =~= Seq::empty());
    assert(pairs_total(Seq::empty()) == 0);
    assert(seq![s].last() == s);
    if b.len() == 0 {
        assert(a + b =~= a);
    } else {
        pairs_add_up(a, b.drop_last(), s);
        assert((a + b).drop_last() =~= a + b.drop_last());
        assert((a + b).last() == b.last());
    }
}

} // verus!
