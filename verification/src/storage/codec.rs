//! Binary codec for DSU routing maps inside Puffin blobs.
//!
//! Blob payload (`blaze-*-dsu-v1`): `u64 LE` pair count, then `count` pairs of
//! `(u64 node, u64 root)` LE, fully resolved and sorted by node, so a reader
//! can map the file and binary-search it without replaying history.

use std::collections::HashMap;
use vstd::prelude::*;

use super::blocks::{entries_ascend, entry_le, holds_at};
use super::filter::{
    blocks_for, filter_bytes, filter_of, overlay_hash, overlay_key, BlockedFilter,
    DEFAULT_FILTER_BITS,
};
use super::members::{
    is_overlay_members, is_shared_members, members_bytes, members_type, MemberEncoding,
    MemberWriter, Tier, OVERLAY_BLOCKED_BLOB_TYPE, OVERLAY_FLAT_BLOB_TYPE,
    SHARED_BLOCKED_BLOB_TYPE, SHARED_FLAT_BLOB_TYPE,
};
use super::payload::{freeze, payload_content, slice_of};
use super::puffin::{
    blob_views, find_property, properties_view, property, Blob, BlobView,
};
use super::registry::{
    registry_bytes, registry_le, registry_type, RegistryEncoding, RegistryWriter,
    BLOCKED_BLOB_TYPE, BLOCK_BYTES, FLAT_BLOB_TYPE,
};
use super::sorted::{
    list_registry, pairs_sorted, pairs_sorted_is, pairs_sorted_sorts, registry_listing,
    registry_listing_lists, registry_strict, sort_pairs, strict_registries_agree,
};
use super::table::{
    get_pair, pair_bytes_len, pairs_at, table_bytes, table_count, table_error, table_reads_back,
    TableError, TableWriter,
};
use super::wire::{get_u32_le, get_u64_le, le_len, u32_at, u64_at};
use crate::graph::base::{ascending, lists, step_up};
use crate::graph::scoped::{lists_scope, ScopedForest};
use crate::graph::sink::{registry_events, SinkEvent, SnapshotSink};
use crate::graph::snapshot::{collected, scope_pairs_view, ForestSnapshot, ScopePairs, SnapshotView};
use crate::graph::types::{NodeId, ScopeId};
use crate::text::{decimal, decimal_reads_back, decimal_text, parse_decimal, parsed, same_text};

verus! {

pub const GLOBAL_BLOB_TYPE: &'static str = "blaze-global-dsu-v1";

pub const SCOPE_BLOB_TYPE: &'static str = "blaze-scope-dsu-v1";

pub const SCOPE_ID_PROP: &'static str = "scope-id";

/// Blocked membership filters over a layer's keys, so a layer that does not
/// hold a key can say so without a binary search. A layer written without them
/// still resolves correctly.
pub const SHARED_FILTER_BLOB_TYPE: &'static str = "blaze-shared-filter-v1";

pub const OVERLAY_FILTER_BLOB_TYPE: &'static str = "blaze-overlay-filter-v1";

/// Membership filters over the member index's **parent** keys. The downward
/// walk expands every node it reaches, and almost none of them have children.
pub const SHARED_MEMBERS_FILTER_BLOB_TYPE: &'static str = "blaze-shared-members-filter-v1";

pub const OVERLAY_MEMBERS_FILTER_BLOB_TYPE: &'static str = "blaze-overlay-members-filter-v1";

/// How a base is encoded. A reader understands everything an older writer
/// produced, and filters and the registry both degrade to "probe the table"
/// rather than to an error.
#[derive(Clone, Copy, Debug, PartialEq, Eq, Structural)]
pub struct WriteOptions {
    /// Bits of membership filter per key; 0 emits no filter blobs at all.
    pub filter_bits: usize,
    /// Which `root -> scopes` encoding to emit.
    pub registry: RegistryEncoding,
    /// Emit the parent-ordered member index, so a component can be listed from
    /// any node in it. Off by default: it is the one index whose cost falls on
    /// deployments that may never query it.
    pub member_index: bool,
    /// How that index is encoded.
    pub members: MemberEncoding,
}

impl Default for WriteOptions {
    fn default() -> (o: WriteOptions)
        ensures
            o.filter_bits == DEFAULT_FILTER_BITS,
            o.registry == RegistryEncoding::Blocked,
            !o.member_index,
            o.members == MemberEncoding::Blocked,
    {
        WriteOptions {
            filter_bits: DEFAULT_FILTER_BITS,
            registry: RegistryEncoding::default(),
            member_index: false,
            members: MemberEncoding::default(),
        }
    }
}

// --- tables -----------------------------------------------------------------------------

/// A table of `pairs`, sorted by node.
pub fn encode_pairs(pairs: &Vec<(NodeId, NodeId)>) -> (data: bytes::Bytes)
    ensures
        payload_content(data) == table_bytes(pairs_sorted(pairs@)),
{
    let mut sorted: Vec<(NodeId, NodeId)> = Vec::new();
    let mut i: usize = 0;
    while i < pairs.len()
        invariant
            i <= pairs.len(),
            sorted@ == pairs@.take(i as int),
        decreases pairs.len() - i,
    {
        sorted.push(pairs[i]);
        assert(sorted@ =~= pairs@.take(i + 1));
        i += 1;
    }
    assert(pairs@.take(i as int) =~= pairs@);
    sort_pairs(&mut sorted);
    freeze(encode_table(&sorted))
}

fn encode_table(pairs: &Vec<(NodeId, NodeId)>) -> (bytes: Vec<u8>)
    ensures
        bytes@ == table_bytes(pairs@),
{
    let mut t = TableWriter::new();
    let mut i: usize = 0;
    while i < pairs.len()
        invariant
            i <= pairs.len(),
            t.wf(),
            t.pairs() == pairs@.take(i as int),
        decreases pairs.len() - i,
    {
        t.push(pairs[i].0, pairs[i].1);
        assert(t.pairs() =~= pairs@.take(i + 1));
        i += 1;
    }
    assert(pairs@.take(i as int) =~= pairs@);
    t.close()
}

/// The pairs of a table.
pub fn decode_pairs(data: &[u8]) -> (r: Result<Vec<(NodeId, NodeId)>, TableError>)
    ensures
        match r {
            Ok(pairs) => table_error(data@, 0, data@.len() as int, 16) is None && pairs@
                == pairs_at(data@, 0, u64_at(data@, 0) as nat),
            Err(e) => table_error(data@, 0, data@.len() as int, 16) == Some(e),
        },
{
    let count: usize = match table_count(data, 0, data.len(), 16) {
        Ok(n) => n,
        Err(e) => {
            return Err(e);
        },
    };
    Ok(first_pairs(data, count))
}

fn first_pairs(data: &[u8], count: usize) -> (pairs: Vec<(NodeId, NodeId)>)
    requires
        8 + 16 * count <= data@.len(),
    ensures
        pairs@ == pairs_at(data@, 0, count as nat),
{
    let mut pairs: Vec<(NodeId, NodeId)> = Vec::new();
    let mut i: usize = 0;
    while i < count
        invariant
            i <= count,
            8 + 16 * count <= data@.len(),
            pairs@ == pairs_at(data@, 0, i as nat),
        decreases count - i,
    {
        pairs.push(get_pair(data, 0, i));
        i += 1;
        assert(pairs@ =~= pairs_at(data@, 0, i as nat));
    }
    pairs
}

/// The pairs of a table that is known to be one: nothing where there is no
/// header.
pub fn table_keys(data: &[u8]) -> (pairs: Vec<(NodeId, NodeId)>)
    requires
        data@.len() >= 8 ==> 8 + 16 * u64_at(data@, 0) <= data@.len(),
    ensures
        pairs@ == if data@.len() >= 8 {
            pairs_at(data@, 0, u64_at(data@, 0) as nat)
        } else {
            Seq::empty()
        },
{
    let len: usize = data.len();
    if len < 8 {
        return Vec::new();
    }
    let count: u64 = get_u64_le(data, 0);
    first_pairs(data, count as usize)
}

/// A written table is one, and its pairs are what was written.
proof fn written_table(data: Seq<u8>, pairs: Seq<(NodeId, NodeId)>)
    requires
        data == table_bytes(pairs),
        data.len() <= usize::MAX,
    ensures
        8 + 16 * u64_at(data, 0) == data.len(),
        pairs_at(data, 0, u64_at(data, 0) as nat) == pairs,
        table_error(data, 0, data.len() as int, 16) is None,
        pairs.len() <= usize::MAX,
{
    pair_bytes_len(pairs);
    le_len(pairs.len() as u64 as nat, 8);
    assert(data.subrange(0, data.len() as int) =~= data);
    assert(holds_at(data, 0, table_bytes(pairs)));
    table_reads_back(data, 0, pairs);
}

/// Entry `i` of a flat registry at `start`.
pub open spec fn entry_at(data: Seq<u8>, start: int, i: int) -> (NodeId, ScopeId) {
    (u64_at(data, start + 8 + 12 * i), u32_at(data, start + 16 + 12 * i))
}

/// Decodes a flat registry payload into `(root, scope)` entries.
pub fn decode_registry(data: &[u8]) -> (r: Result<Vec<(NodeId, ScopeId)>, TableError>)
    ensures
        match r {
            Ok(entries) => table_error(data@, 0, data@.len() as int, 12) is None && entries@
                == Seq::new(u64_at(data@, 0) as nat, |i: int| entry_at(data@, 0, i)),
            Err(e) => table_error(data@, 0, data@.len() as int, 12) == Some(e),
        },
{
    let count: usize = match table_count(data, 0, data.len(), 12) {
        Ok(n) => n,
        Err(e) => {
            return Err(e);
        },
    };
    let len: usize = data.len();
    let mut out: Vec<(NodeId, ScopeId)> = Vec::new();
    let mut i: usize = 0;
    while i < count
        invariant
            i <= count,
            len == data@.len(),
            len == 8 + 12 * count,
            out@ == Seq::new(i as nat, |j: int| entry_at(data@, 0, j)),
        decreases count - i,
    {
        let at: usize = 8 + 12 * i;
        out.push((get_u64_le(data, at), get_u32_le(data, at + 8)));
        i += 1;
        assert(out@ =~= Seq::new(i as nat, |j: int| entry_at(data@, 0, j)));
    }
    Ok(out)
}

// --- the registry of a snapshot ------------------------------------------------------------

/// The root that `pairs` records for `x`, the last one where there are
/// several; `x` itself where there is none.
pub open spec fn live(pairs: Seq<(NodeId, NodeId)>, x: NodeId) -> NodeId
    decreases pairs.len(),
{
    if pairs.len() == 0 {
        x
    } else if pairs.last().0 == x {
        pairs.last().1
    } else {
        live(pairs.drop_last(), x)
    }
}

/// `shared` records the live root of every node that `pairs` names.
pub open spec fn maps_live(
    shared: Map<NodeId, NodeId>,
    pairs: Seq<(NodeId, NodeId)>,
) -> bool {
    forall|x: NodeId| #[trigger]
        live(pairs, x) == if shared.contains_key(x) {
            shared[x]
        } else {
            x
        }
}

/// The entries that the pairs of one scope contribute: both ends of each, as
/// their live shared roots.
pub open spec fn scope_entries(
    global: Seq<(NodeId, NodeId)>,
    scope: ScopeId,
    pairs: Seq<(NodeId, NodeId)>,
) -> Seq<(NodeId, ScopeId)>
    decreases pairs.len(),
{
    if pairs.len() == 0 {
        Seq::empty()
    } else {
        scope_entries(global, scope, pairs.drop_last()) + seq![
            (live(global, pairs.last().0), scope),
            (live(global, pairs.last().1), scope),
        ]
    }
}

/// The entries of every scope.
pub open spec fn raw_registry(
    global: Seq<(NodeId, NodeId)>,
    scopes: Seq<ScopePairs>,
) -> Seq<(NodeId, ScopeId)>
    decreases scopes.len(),
{
    if scopes.len() == 0 {
        Seq::empty()
    } else {
        raw_registry(global, scopes.drop_last()) + scope_entries(
            global,
            scopes.last().scope,
            scopes.last().pairs,
        )
    }
}

/// The registry of a snapshot.
pub open spec fn snapshot_registry(snap: SnapshotView) -> Seq<(NodeId, ScopeId)> {
    registry_listing(raw_registry(snap.global, snap.scopes))
}

/// `root` and `scope` belong together: some pair of the scope has an end whose
/// live shared root is `root`.
pub open spec fn keyed_on(snap: SnapshotView, root: NodeId, scope: ScopeId) -> bool {
    exists|i: int, j: int| #[trigger] pair_keyed_on(snap, i, j, root, scope)
}

pub open spec fn pair_keyed_on(
    snap: SnapshotView,
    i: int,
    j: int,
    root: NodeId,
    scope: ScopeId,
) -> bool {
    &&& 0 <= i < snap.scopes.len()
    &&& snap.scopes[i].scope == scope
    &&& 0 <= j < snap.scopes[i].pairs.len()
    &&& (live(snap.global, snap.scopes[i].pairs[j].0) == root || live(
        snap.global,
        snap.scopes[i].pairs[j].1,
    ) == root)
}

proof fn scope_entries_has(
    global: Seq<(NodeId, NodeId)>,
    scope: ScopeId,
    pairs: Seq<(NodeId, NodeId)>,
    e: (NodeId, ScopeId),
)
    ensures
        scope_entries(global, scope, pairs).contains(e) <==> e.1 == scope && exists|j: int|
            0 <= j < pairs.len() && (live(global, (#[trigger] pairs[j]).0) == e.0 || live(
                global,
                pairs[j].1,
            ) == e.0),
    decreases pairs.len(),
{
    let all = scope_entries(global, scope, pairs);
    if pairs.len() > 0 {
        let front = pairs.drop_last();
        scope_entries_has(global, scope, front, e);
        let before = scope_entries(global, scope, front);
        let two = seq![
            (live(global, pairs.last().0), scope),
            (live(global, pairs.last().1), scope),
        ];
        assert(all == before + two);
        if all.contains(e) {
            let k = all.index_of(e);
            if k < before.len() {
                assert(before[k] == e);
                assert(before.contains(e));
                let j = choose|j: int|
                    0 <= j < front.len() && (live(global, (#[trigger] front[j]).0) == e.0 || live(
                        global,
                        front[j].1,
                    ) == e.0);
                assert(pairs[j] == front[j]);
            } else {
                let j = pairs.len() - 1;
                assert(two[k - before.len()] == e);
                assert(live(global, pairs[j].0) == e.0 || live(global, pairs[j].1) == e.0);
            }
        }
        if e.1 == scope && exists|j: int|
            0 <= j < pairs.len() && (live(global, (#[trigger] pairs[j]).0) == e.0 || live(
                global,
                pairs[j].1,
            ) == e.0) {
            let j = choose|j: int|
                0 <= j < pairs.len() && (live(global, (#[trigger] pairs[j]).0) == e.0 || live(
                    global,
                    pairs[j].1,
                ) == e.0);
            if j < front.len() {
                assert(front[j] == pairs[j]);
                assert(before.contains(e));
                let k = before.index_of(e);
                assert(all[k] == e);
            } else if live(global, pairs[j].0) == e.0 {
                assert(all[before.len() as int] == e);
            } else {
                assert(all[before.len() as int + 1] == e);
            }
        }
    }
}

proof fn raw_registry_has(
    global: Seq<(NodeId, NodeId)>,
    scopes: Seq<ScopePairs>,
    e: (NodeId, ScopeId),
)
    ensures
        raw_registry(global, scopes).contains(e) <==> keyed_on(
            SnapshotView { global, scopes },
            e.0,
            e.1,
        ),
    decreases scopes.len(),
{
    let all = raw_registry(global, scopes);
    let snap = SnapshotView { global, scopes };
    if scopes.len() > 0 {
        let front = scopes.drop_last();
        let fsnap = SnapshotView { global, scopes: front };
        raw_registry_has(global, front, e);
        let last = scopes.last();
        scope_entries_has(global, last.scope, last.pairs, e);
        let before = raw_registry(global, front);
        let more = scope_entries(global, last.scope, last.pairs);
        assert(all == before + more);
        if all.contains(e) {
            let k = all.index_of(e);
            if k < before.len() {
                assert(before[k] == e);
                assert(before.contains(e));
                let (i, j) = choose|i: int, j: int| #[trigger] pair_keyed_on(fsnap, i, j, e.0, e.1);
                assert(pair_keyed_on(snap, i, j, e.0, e.1));
            } else {
                assert(more[k - before.len()] == e);
                assert(more.contains(e));
                let j = choose|j: int|
                    0 <= j < last.pairs.len() && (live(global, (#[trigger] last.pairs[j]).0) == e.0
                        || live(global, last.pairs[j].1) == e.0);
                assert(pair_keyed_on(snap, scopes.len() - 1, j, e.0, e.1));
            }
        }
        if keyed_on(snap, e.0, e.1) {
            let (i, j) = choose|i: int, j: int| #[trigger] pair_keyed_on(snap, i, j, e.0, e.1);
            if i < front.len() {
                assert(pair_keyed_on(fsnap, i, j, e.0, e.1));
                assert(before.contains(e));
                let k = before.index_of(e);
                assert(all[k] == e);
            } else {
                assert(last.pairs[j] == scopes[i].pairs[j]);
                assert(more.contains(e));
                let k = more.index_of(e);
                assert(all[before.len() + k] == e);
            }
        }
    }
}

/// **A snapshot's registry is exact**: a scope is registered on a shared root
/// if and only if one of its pairs has an end there, each entry once and in
/// ascending order.
pub proof fn snapshot_registry_is_exact(snap: SnapshotView)
    ensures
        registry_strict(snapshot_registry(snap)),
        forall|e: (NodeId, ScopeId)|
            snapshot_registry(snap).contains(e) <==> keyed_on(snap, e.0, e.1),
{
    registry_listing_lists(raw_registry(snap.global, snap.scopes));
    assert forall|e: (NodeId, ScopeId)|
        snapshot_registry(snap).contains(e) <==> keyed_on(snap, e.0, e.1) by {
        raw_registry_has(snap.global, snap.scopes, e);
        assert(SnapshotView { global: snap.global, scopes: snap.scopes } == snap);
    }
}

/// `(root, scope)` pairs derived from a snapshot: every overlay member
/// resolved through the snapshot's shared map to its *live* shared root, so
/// future merges of that root notify the right scopes.
pub fn registry_from_snapshot(snap: &ForestSnapshot) -> (out: Vec<(NodeId, ScopeId)>)
    ensures
        out@ == snapshot_registry(snap@),
{
    let ghost global = snap.global@;
    let ghost scopes = snap@.scopes;
    let mut shared: HashMap<NodeId, NodeId> = HashMap::new();
    let mut g: usize = 0;
    while g < snap.global.len()
        invariant
            g <= snap.global.len(),
            maps_live(shared@, snap.global@.take(g as int)),
        decreases snap.global.len() - g,
    {
        let p: (NodeId, NodeId) = snap.global[g];
        let ghost was = shared@;
        shared.insert(p.0, p.1);
        proof {
            let front = snap.global@.take(g as int);
            assert(snap.global@.take(g + 1).drop_last() =~= front);
            assert forall|x: NodeId| #[trigger]
                live(snap.global@.take(g + 1), x) == if shared@.contains_key(x) {
                    shared@[x]
                } else {
                    x
                } by {
                assert(live(front, x) == if was.contains_key(x) {
                    was[x]
                } else {
                    x
                });
            }
            assert(maps_live(shared@, snap.global@.take(g + 1)));
        }
        g += 1;
    }
    assert(snap.global@.take(g as int) =~= global);
    let mut out: Vec<(NodeId, ScopeId)> = Vec::new();
    let mut i: usize = 0;
    assert(scopes.take(0) =~= Seq::empty());
    while i < snap.scopes.len()
        invariant
            i <= snap.scopes.len(),
            global == snap.global@,
            scopes == snap@.scopes,
            maps_live(shared@, global),
            out@ == raw_registry(global, scopes.take(i as int)),
        decreases snap.scopes.len() - i,
    {
        let scope: ScopeId = snap.scopes[i].0;
        let pairs = &snap.scopes[i].1;
        let ghost before = out@;
        let mut j: usize = 0;
        assert(out@ =~= before + scope_entries(global, scope, pairs@.take(0)));
        while j < pairs.len()
            invariant
                j <= pairs.len(),
                maps_live(shared@, global),
                out@ == before + scope_entries(global, scope, pairs@.take(j as int)),
            decreases pairs.len() - j,
        {
            let (a, b): (NodeId, NodeId) = pairs[j];
            let live_a: NodeId = match shared.get(&a) {
                Some(r) => *r,
                None => a,
            };
            let live_b: NodeId = match shared.get(&b) {
                Some(r) => *r,
                None => b,
            };
            out.push((live_a, scope));
            out.push((live_b, scope));
            assert(pairs@.take(j + 1).drop_last() =~= pairs@.take(j as int));
            j += 1;
            assert(out@ =~= before + scope_entries(global, scope, pairs@.take(j as int)));
        }
        assert(pairs@.take(j as int) =~= pairs@);
        assert(scopes.take(i + 1).drop_last() =~= scopes.take(i as int));
        assert(scopes.take(i + 1).last() == ScopePairs { scope, pairs: pairs@ });
        i += 1;
    }
    assert(scopes.take(i as int) =~= scopes);
    list_registry(out)
}

/// Encodes sorted, deduped entries, returning the blob type to stamp on them.
/// `None` when there is nothing to write.
pub fn encode_registry(entries: &Vec<(NodeId, ScopeId)>, encoding: RegistryEncoding) -> (r: Option<
    (&'static str, bytes::Bytes),
>)
    requires
        registry_strict(entries@),
    ensures
        match r {
            None => entries@.len() == 0,
            Some(blob) => entries@.len() > 0 && blob.0@ == registry_type(encoding)
                && payload_content(blob.1) == registry_bytes(
                encoding,
                entries@,
                BLOCK_BYTES as nat,
            ),
        },
{
    let mut w = RegistryWriter::new(encoding);
    let mut i: usize = 0;
    while i < entries.len()
        invariant
            i <= entries.len(),
            registry_strict(entries@),
            w.wf(),
            w.encoding() == encoding,
            w.target() == BLOCK_BYTES,
            w.kept() == entries@.take(i as int),
        decreases entries.len() - i,
    {
        let e: (NodeId, ScopeId) = entries[i];
        proof {
            if i > 0 {
                assert(registry_le(entries@[i - 1], entries@[i as int]) && entries@[i - 1]
                    != entries@[i as int]);
            }
        }
        w.push(e.0, e.1);
        assert(entries@.take(i + 1) =~= entries@.take(i as int).push(e));
        i += 1;
    }
    assert(entries@.take(i as int) =~= entries@);
    w.finish()
}

// --- the member index ------------------------------------------------------------------------

/// The `(parent, child)` pairs of a `(node, parent)` table, in table order. A
/// root's own entry maps it to itself and is left out: kept, it would make the
/// downward walk revisit the root forever.
pub open spec fn inverted(pairs: Seq<(NodeId, NodeId)>) -> Seq<(NodeId, NodeId)>
    decreases pairs.len(),
{
    if pairs.len() == 0 {
        Seq::empty()
    } else if pairs.last().0 == pairs.last().1 {
        inverted(pairs.drop_last())
    } else {
        inverted(pairs.drop_last()).push((pairs.last().1, pairs.last().0))
    }
}

/// The table's pairs re-sorted by parent, so the children of a node are
/// contiguous.
pub open spec fn member_pairs(pairs: Seq<(NodeId, NodeId)>) -> Seq<(NodeId, NodeId)> {
    pairs_sorted(inverted(pairs))
}

/// The distinct first columns of ascending pairs.
pub open spec fn first_columns(pairs: Seq<(NodeId, NodeId)>) -> Seq<NodeId>
    decreases pairs.len(),
{
    if pairs.len() == 0 {
        Seq::empty()
    } else {
        let before = first_columns(pairs.drop_last());
        if before.len() > 0 && before.last() == pairs.last().0 {
            before
        } else {
            before.push(pairs.last().0)
        }
    }
}

/// Re-sorts an encoded `(node, parent)` table by parent and encodes it as a
/// member index, with the distinct parents, which the filters are built from.
/// `None` where no node has another as its parent.
pub fn encode_members(data: &[u8], encoding: MemberEncoding, tier: Tier) -> (r: Option<
    (&'static str, bytes::Bytes, Vec<NodeId>),
>)
    requires
        data@.len() >= 8,
        8 + 16 * u64_at(data@, 0) <= data@.len(),
    ensures
        ({
            let pairs = member_pairs(pairs_at(data@, 0, u64_at(data@, 0) as nat));
            match r {
                None => pairs.len() == 0,
                Some(m) => {
                    &&& pairs.len() > 0
                    &&& m.0@ == members_type(encoding, tier)
                    &&& payload_content(m.1) == members_bytes(encoding, pairs, BLOCK_BYTES as nat)
                    &&& m.2@ == first_columns(pairs)
                },
            }
        }),
{
    let table = table_keys(data);
    let mut pairs: Vec<(NodeId, NodeId)> = Vec::new();
    let mut i: usize = 0;
    while i < table.len()
        invariant
            i <= table.len(),
            pairs@ == inverted(table@.take(i as int)),
        decreases table.len() - i,
    {
        let (node, parent): (NodeId, NodeId) = table[i];
        assert(table@.take(i + 1).drop_last() =~= table@.take(i as int));
        if node != parent {
            pairs.push((parent, node));
        }
        i += 1;
    }
    assert(table@.take(i as int) =~= table@);
    sort_pairs(&mut pairs);
    proof {
        pairs_sorted_sorts(inverted(table@));
    }
    let mut w = MemberWriter::new(encoding, tier);
    let mut parents: Vec<NodeId> = Vec::new();
    let mut j: usize = 0;
    while j < pairs.len()
        invariant
            j <= pairs.len(),
            entries_ascend(pairs@),
            w.wf(),
            w.encoding() == encoding,
            w.tier() == tier,
            w.target() == BLOCK_BYTES,
            w.pushed() == pairs@.take(j as int),
            parents@ == first_columns(pairs@.take(j as int)),
        decreases pairs.len() - j,
    {
        let (parent, child): (NodeId, NodeId) = pairs[j];
        assert(pairs@.take(j + 1).drop_last() =~= pairs@.take(j as int));
        let repeat: bool = parents.len() > 0 && parents[parents.len() - 1] == parent;
        if !repeat {
            parents.push(parent);
        }
        proof {
            if j > 0 {
                assert(entry_le(pairs@[j - 1], pairs@[j as int]));
            }
        }
        w.push(parent, child);
        assert(pairs@.take(j + 1) =~= pairs@.take(j as int).push((parent, child)));
        j += 1;
    }
    assert(pairs@.take(j as int) =~= pairs@);
    match w.finish() {
        None => None,
        Some((t, b)) => Some((t, b, parents)),
    }
}

// --- filters -----------------------------------------------------------------------------------

/// The keys of a table.
pub open spec fn keys_of(pairs: Seq<(NodeId, NodeId)>) -> Seq<NodeId> {
    pairs.map_values(|p: (NodeId, NodeId)| p.0)
}

/// The keys as they are hashed for `scope`.
pub open spec fn salted(scope: ScopeId, keys: Seq<NodeId>) -> Seq<u64> {
    keys.map_values(|k: NodeId| overlay_hash(scope, k))
}

/// The keys of every scope, hashed with their scope.
pub open spec fn overlay_keys(scopes: Seq<ScopePairs>) -> Seq<u64>
    decreases scopes.len(),
{
    if scopes.len() == 0 {
        Seq::empty()
    } else {
        overlay_keys(scopes.drop_last()) + salted(
            scopes.last().scope,
            keys_of(scopes.last().pairs),
        )
    }
}

/// The parents of every scope's member index, hashed with their scope.
pub open spec fn overlay_parents(scopes: Seq<ScopePairs>) -> Seq<u64>
    decreases scopes.len(),
{
    if scopes.len() == 0 {
        Seq::empty()
    } else {
        overlay_parents(scopes.drop_last()) + salted(
            scopes.last().scope,
            first_columns(member_pairs(scopes.last().pairs)),
        )
    }
}

/// The filter blob over `keys`; none when filters are off. A reader takes its
/// absence as "probe the table directly".
pub open spec fn filter_blob(blob_type: Seq<char>, keys: Seq<u64>, bits: usize, seq: i64) -> Seq<
    BlobView,
> {
    if bits == 0 {
        Seq::empty()
    } else {
        seq![
            plain_blob(
                blob_type,
                filter_bytes(filter_of(keys, blocks_for(keys.len(), bits as nat))),
                seq,
            ),
        ]
    }
}

/// A blob without properties.
pub open spec fn plain_blob(blob_type: Seq<char>, data: Seq<u8>, seq: i64) -> BlobView {
    BlobView {
        blob_type,
        data,
        properties: Seq::empty(),
        snapshot_id: seq,
        sequence_number: seq,
    }
}

/// A blob of one scope.
pub open spec fn scope_blob(
    blob_type: Seq<char>,
    data: Seq<u8>,
    scope: ScopeId,
    seq: i64,
) -> BlobView {
    BlobView {
        blob_type,
        data,
        properties: seq![(SCOPE_ID_PROP@, decimal(scope as nat))],
        snapshot_id: seq,
        sequence_number: seq,
    }
}

/// The routing tables: the shared tier, then the scopes in order.
pub open spec fn table_blobs(t: SnapshotView, seq: i64) -> Seq<BlobView> {
    seq![plain_blob(GLOBAL_BLOB_TYPE@, table_bytes(t.global), seq)] + Seq::new(
        t.scopes.len(),
        |i: int|
            scope_blob(SCOPE_BLOB_TYPE@, table_bytes(t.scopes[i].pairs), t.scopes[i].scope, seq),
    )
}

/// The registry index; none when no scope has overlay state.
pub open spec fn registry_blob(
    entries: Seq<(NodeId, ScopeId)>,
    encoding: RegistryEncoding,
    seq: i64,
) -> Seq<BlobView> {
    if entries.len() == 0 {
        Seq::empty()
    } else {
        seq![
            plain_blob(
                registry_type(encoding),
                registry_bytes(encoding, entries, BLOCK_BYTES as nat),
                seq,
            ),
        ]
    }
}

/// The member index of the shared tier; none when no node has a parent.
pub open spec fn shared_member_blob(
    pairs: Seq<(NodeId, NodeId)>,
    encoding: MemberEncoding,
    seq: i64,
) -> Seq<BlobView> {
    let m = member_pairs(pairs);
    if m.len() == 0 {
        Seq::empty()
    } else {
        seq![
            plain_blob(
                members_type(encoding, Tier::Shared),
                members_bytes(encoding, m, BLOCK_BYTES as nat),
                seq,
            ),
        ]
    }
}

/// The member indexes of the scopes that have one.
pub open spec fn overlay_member_blobs(
    scopes: Seq<ScopePairs>,
    encoding: MemberEncoding,
    seq: i64,
) -> Seq<BlobView>
    decreases scopes.len(),
{
    if scopes.len() == 0 {
        Seq::empty()
    } else {
        let before = overlay_member_blobs(scopes.drop_last(), encoding, seq);
        let m = member_pairs(scopes.last().pairs);
        if m.len() == 0 {
            before
        } else {
            before.push(
                scope_blob(
                    members_type(encoding, Tier::Overlay),
                    members_bytes(encoding, m, BLOCK_BYTES as nat),
                    scopes.last().scope,
                    seq,
                ),
            )
        }
    }
}

/// Everything the member index adds.
pub open spec fn member_blobs(t: SnapshotView, opts: WriteOptions, seq: i64) -> Seq<BlobView> {
    shared_member_blob(t.global, opts.members, seq) + overlay_member_blobs(
        t.scopes,
        opts.members,
        seq,
    ) + filter_blob(
        SHARED_MEMBERS_FILTER_BLOB_TYPE@,
        first_columns(member_pairs(t.global)),
        opts.filter_bits,
        seq,
    ) + filter_blob(
        OVERLAY_MEMBERS_FILTER_BLOB_TYPE@,
        overlay_parents(t.scopes),
        opts.filter_bits,
        seq,
    )
}

/// The blobs of a base with the tables `t` and the registry `entries`: shared
/// tier, scopes in order, the registry index, the membership filters, and the
/// member index where it is asked for.
pub open spec fn base_blobs(
    t: SnapshotView,
    entries: Seq<(NodeId, ScopeId)>,
    opts: WriteOptions,
    seq: i64,
) -> Seq<BlobView> {
    table_blobs(t, seq) + registry_blob(entries, opts.registry, seq) + filter_blob(
        SHARED_FILTER_BLOB_TYPE@,
        keys_of(t.global),
        opts.filter_bits,
        seq,
    ) + filter_blob(
        OVERLAY_FILTER_BLOB_TYPE@,
        overlay_keys(t.scopes),
        opts.filter_bits,
        seq,
    ) + if opts.member_index {
        member_blobs(t, opts, seq)
    } else {
        Seq::empty()
    }
}

// --- putting a base together ----------------------------------------------------------------------

/// An encoded table of one scope.
struct ScopeTable {
    scope: ScopeId,
    data: bytes::Bytes,
}

/// The encoded tables are those of `t`.
spec fn encodes(shared: bytes::Bytes, scopes: Seq<ScopeTable>, t: SnapshotView) -> bool {
    &&& payload_content(shared) == table_bytes(t.global)
    &&& scopes_encode(scopes, t.scopes)
}

spec fn scopes_encode(tables: Seq<ScopeTable>, scopes: Seq<ScopePairs>) -> bool {
    &&& tables.len() == scopes.len()
    &&& forall|i: int|
        0 <= i < scopes.len() ==> (#[trigger] tables[i]).scope == scopes[i].scope
            && payload_content(tables[i].data) == table_bytes(scopes[i].pairs)
}

/// A blob without properties.
pub fn make_blob(blob_type: &str, data: bytes::Bytes, seq: i64) -> (b: Blob)
    ensures
        b@ == plain_blob(blob_type@, payload_content(data), seq),
{
    let b = Blob {
        blob_type: String::from_str(blob_type),
        data,
        properties: Vec::new(),
        snapshot_id: seq,
        sequence_number: seq,
    };
    assert(b@ =~= plain_blob(blob_type@, payload_content(data), seq));
    b
}

/// A blob of one scope.
pub fn make_scope_blob(blob_type: &str, data: bytes::Bytes, scope: ScopeId, seq: i64) -> (b: Blob)
    ensures
        b@ == scope_blob(blob_type@, payload_content(data), scope, seq),
{
    let mut properties: Vec<(String, String)> = Vec::new();
    properties.push((String::from_str(SCOPE_ID_PROP), decimal_text(scope as u64)));
    let b = Blob {
        blob_type: String::from_str(blob_type),
        data,
        properties,
        snapshot_id: seq,
        sequence_number: seq,
    };
    assert(b@ =~= scope_blob(blob_type@, payload_content(data), scope, seq));
    b
}

fn push_filter(blobs: &mut Vec<Blob>, blob_type: &str, keys: &Vec<u64>, bits: usize, seq: i64)
    ensures
        blob_views(final(blobs)@) == blob_views(old(blobs)@) + filter_blob(
            blob_type@,
            keys@,
            bits,
            seq,
        ),
{
    let ghost before = blobs@;
    match BlockedFilter::build_with(keys.as_slice(), keys.len(), bits) {
        None => {
            assert(blob_views(blobs@) =~= blob_views(before) + filter_blob(
                blob_type@,
                keys@,
                bits,
                seq,
            ));
        },
        Some(f) => {
            blobs.push(make_blob(blob_type, f.encode(), seq));
            assert(blob_views(blobs@) =~= blob_views(before) + filter_blob(
                blob_type@,
                keys@,
                bits,
                seq,
            ));
        },
    }
}

fn push_keys(out: &mut Vec<u64>, pairs: &Vec<(NodeId, NodeId)>)
    ensures
        final(out)@ == old(out)@ + keys_of(pairs@),
{
    let ghost before = out@;
    let mut i: usize = 0;
    assert(out@ =~= before + keys_of(pairs@.take(0)));
    while i < pairs.len()
        invariant
            i <= pairs.len(),
            out@ == before + keys_of(pairs@.take(i as int)),
        decreases pairs.len() - i,
    {
        out.push(pairs[i].0);
        i += 1;
        assert(out@ =~= before + keys_of(pairs@.take(i as int)));
    }
    assert(pairs@.take(i as int) =~= pairs@);
}

fn push_salted(out: &mut Vec<u64>, scope: ScopeId, keys: &Vec<NodeId>)
    ensures
        final(out)@ == old(out)@ + salted(scope, keys@),
{
    let ghost before = out@;
    let mut i: usize = 0;
    assert(out@ =~= before + salted(scope, keys@.take(0)));
    while i < keys.len()
        invariant
            i <= keys.len(),
            out@ == before + salted(scope, keys@.take(i as int)),
        decreases keys.len() - i,
    {
        out.push(overlay_key(scope, keys[i]));
        i += 1;
        assert(out@ =~= before + salted(scope, keys@.take(i as int)));
    }
    assert(keys@.take(i as int) =~= keys@);
}

/// The keys of an encoded table.
fn encoded_keys(data: &bytes::Bytes, Ghost(pairs): Ghost<Seq<(NodeId, NodeId)>>) -> (keys: Vec<u64>)
    requires
        payload_content(*data) == table_bytes(pairs),
    ensures
        keys@ == keys_of(pairs),
{
    let bytes = slice_of(data);
    let len: usize = bytes.len();
    proof {
        written_table(bytes@, pairs);
    }
    let mut keys: Vec<u64> = Vec::new();
    push_keys(&mut keys, &table_keys(bytes));
    assert(keys@ =~= keys_of(pairs));
    keys
}

/// The member-index filters, from the distinct parents each table contributed.
///
/// Two filters, not one per scope: overlay keys are hashed as `(scope, node)`
/// so one blob covers every scope, and a shared key is hashed bare.
fn push_member_filters(
    blobs: &mut Vec<Blob>,
    shared_parents: &Vec<NodeId>,
    overlay_parent_keys: &Vec<u64>,
    bits: usize,
    seq: i64,
)
    ensures
        blob_views(final(blobs)@) == blob_views(old(blobs)@) + filter_blob(
            SHARED_MEMBERS_FILTER_BLOB_TYPE@,
            shared_parents@,
            bits,
            seq,
        ) + filter_blob(OVERLAY_MEMBERS_FILTER_BLOB_TYPE@, overlay_parent_keys@, bits, seq),
{
    push_filter(blobs, SHARED_MEMBERS_FILTER_BLOB_TYPE, shared_parents, bits, seq);
    push_filter(blobs, OVERLAY_MEMBERS_FILTER_BLOB_TYPE, overlay_parent_keys, bits, seq);
}

/// Adds the member index of the encoded tables.
fn push_members(
    blobs: &mut Vec<Blob>,
    shared: &bytes::Bytes,
    scopes: &Vec<ScopeTable>,
    opts: WriteOptions,
    seq: i64,
    Ghost(t): Ghost<SnapshotView>,
)
    requires
        encodes(*shared, scopes@, t),
    ensures
        blob_views(final(blobs)@) == blob_views(old(blobs)@) + member_blobs(t, opts, seq),
{
    let ghost before = blob_views(blobs@);
    let bytes = slice_of(shared);
    let shared_len: usize = bytes.len();
    proof {
        written_table(bytes@, t.global);
    }
    let mut shared_parents: Vec<NodeId> = Vec::new();
    let ghost first = shared_member_blob(t.global, opts.members, seq);
    match encode_members(bytes, opts.members, Tier::Shared) {
        None => {
            assert(blob_views(blobs@) =~= before + first);
            assert(shared_parents@ =~= first_columns(member_pairs(t.global)));
        },
        Some((blob_type, data, parents)) => {
            blobs.push(make_blob(blob_type, data, seq));
            assert(blob_views(blobs@) =~= before + first);
            shared_parents = parents;
        },
    }
    let mut parent_keys: Vec<u64> = Vec::new();
    let mut i: usize = 0;
    assert(t.scopes.take(0) =~= Seq::empty());
    assert(blob_views(blobs@) =~= before + first + overlay_member_blobs(
        t.scopes.take(0),
        opts.members,
        seq,
    ));
    while i < scopes.len()
        invariant
            i <= scopes.len(),
            scopes_encode(scopes@, t.scopes),
            blob_views(blobs@) == before + first + overlay_member_blobs(
                t.scopes.take(i as int),
                opts.members,
                seq,
            ),
            parent_keys@ == overlay_parents(t.scopes.take(i as int)),
        decreases scopes.len() - i,
    {
        let scope: ScopeId = scopes[i].scope;
        let bytes = slice_of(&scopes[i].data);
        let len: usize = bytes.len();
        let ghost pairs = t.scopes[i as int].pairs;
        let ghost was = blobs@;
        proof {
            assert(scopes@[i as int].scope == t.scopes[i as int].scope);
            written_table(bytes@, pairs);
            assert(t.scopes.take(i + 1).drop_last() =~= t.scopes.take(i as int));
            assert(t.scopes.take(i + 1).last() == t.scopes[i as int]);
        }
        match encode_members(bytes, opts.members, Tier::Overlay) {
            None => {
                assert(salted(scope, first_columns(member_pairs(pairs))) =~= Seq::empty());
                assert(parent_keys@ =~= overlay_parents(t.scopes.take(i + 1)));
            },
            Some((blob_type, data, parents)) => {
                blobs.push(make_scope_blob(blob_type, data, scope, seq));
                push_salted(&mut parent_keys, scope, &parents);
                assert(blob_views(blobs@) =~= blob_views(was).push(
                    scope_blob(blob_type@, payload_content(data), scope, seq),
                ));
                assert(blob_views(blobs@) =~= before + first + overlay_member_blobs(
                    t.scopes.take(i + 1),
                    opts.members,
                    seq,
                ));
            },
        }
        i += 1;
    }
    assert(t.scopes.take(i as int) =~= t.scopes);
    push_member_filters(blobs, &shared_parents, &parent_keys, opts.filter_bits, seq);
    assert(blob_views(blobs@) =~= before + member_blobs(t, opts, seq));
}

/// The blobs of a base whose tables are already encoded. Filters and the
/// member index are read back from the payloads in hand, so they cannot
/// describe a table that was not written.
fn assemble(
    shared: bytes::Bytes,
    scopes: Vec<ScopeTable>,
    registry: &Vec<(NodeId, ScopeId)>,
    opts: WriteOptions,
    seq: i64,
    Ghost(t): Ghost<SnapshotView>,
) -> (blobs: Vec<Blob>)
    requires
        encodes(shared, scopes@, t),
        registry_strict(registry@),
    ensures
        blob_views(blobs@) == base_blobs(t, registry@, opts, seq),
{
    let mut blobs: Vec<Blob> = Vec::new();
    let shared_keys = encoded_keys(&shared, Ghost(t.global));
    blobs.push(make_blob(GLOBAL_BLOB_TYPE, super::payload::share(&shared), seq));
    let mut scope_keys: Vec<u64> = Vec::new();
    let mut i: usize = 0;
    let ghost all = table_blobs(t, seq);
    assert(t.scopes.take(0) =~= Seq::empty());
    assert(blob_views(blobs@) =~= all.take(1));
    while i < scopes.len()
        invariant
            i <= scopes.len(),
            scopes_encode(scopes@, t.scopes),
            all == table_blobs(t, seq),
            blob_views(blobs@) == all.take(i + 1),
            scope_keys@ == overlay_keys(t.scopes.take(i as int)),
        decreases scopes.len() - i,
    {
        let scope: ScopeId = scopes[i].scope;
        let ghost was = blobs@;
        assert(scopes@[i as int].scope == t.scopes[i as int].scope);
        let keys = encoded_keys(&scopes[i].data, Ghost(t.scopes[i as int].pairs));
        push_salted(&mut scope_keys, scope, &keys);
        blobs.push(
            make_scope_blob(SCOPE_BLOB_TYPE, super::payload::share(&scopes[i].data), scope, seq),
        );
        proof {
            assert(t.scopes.take(i + 1).drop_last() =~= t.scopes.take(i as int));
            assert(t.scopes.take(i + 1).last() == t.scopes[i as int]);
            assert(blob_views(blobs@) =~= blob_views(was).push(all[i + 1]));
            assert(blob_views(blobs@) =~= all.take(i + 2));
        }
        i += 1;
    }
    proof {
        assert(t.scopes.take(i as int) =~= t.scopes);
        assert(all.take(i + 1) =~= all);
    }
    let ghost was = blob_views(blobs@);
    match encode_registry(registry, opts.registry) {
        None => {
            assert(blob_views(blobs@) =~= was + registry_blob(registry@, opts.registry, seq));
        },
        Some((blob_type, data)) => {
            blobs.push(make_blob(blob_type, data, seq));
            assert(blob_views(blobs@) =~= was + registry_blob(registry@, opts.registry, seq));
        },
    }
    push_filter(&mut blobs, SHARED_FILTER_BLOB_TYPE, &shared_keys, opts.filter_bits, seq);
    push_filter(&mut blobs, OVERLAY_FILTER_BLOB_TYPE, &scope_keys, opts.filter_bits, seq);
    if opts.member_index {
        push_members(&mut blobs, &shared, &scopes, opts, seq, Ghost(t));
    }
    assert(blob_views(blobs@) =~= base_blobs(t, registry@, opts, seq));
    blobs
}

/// The tables that `snap` is written as: its pairs, sorted by node.
pub open spec fn sorted_tables(snap: SnapshotView) -> SnapshotView {
    SnapshotView {
        global: pairs_sorted(snap.global),
        scopes: snap.scopes.map_values(
            |s: ScopePairs| ScopePairs { scope: s.scope, pairs: pairs_sorted(s.pairs) },
        ),
    }
}

/// Encodes a forest snapshot as Puffin blobs: one global blob, one blob per
/// scope with overlay state, and the indexes.
pub fn snapshot_to_blobs(snap: &ForestSnapshot, sequence: u64, opts: WriteOptions) -> (blobs: Vec<
    Blob,
>)
    ensures
        blob_views(blobs@) == base_blobs(
            sorted_tables(snap@),
            snapshot_registry(snap@),
            opts,
            sequence as i64,
        ),
{
    let seq: i64 = sequence as i64;
    let ghost t = sorted_tables(snap@);
    let shared = encode_pairs(&snap.global);
    let mut scopes: Vec<ScopeTable> = Vec::new();
    let mut i: usize = 0;
    while i < snap.scopes.len()
        invariant
            i <= snap.scopes.len(),
            t == sorted_tables(snap@),
            scopes@.len() == i,
            forall|j: int|
                0 <= j < i ==> (#[trigger] scopes@[j]).scope == t.scopes[j].scope
                    && payload_content(scopes@[j].data) == table_bytes(t.scopes[j].pairs),
        decreases snap.scopes.len() - i,
    {
        assert(snap@.scopes[i as int] == scope_pairs_view(snap.scopes@[i as int]));
        let data = encode_pairs(&snap.scopes[i].1);
        scopes.push(ScopeTable { scope: snap.scopes[i].0, data });
        i += 1;
    }
    let registry = registry_from_snapshot(snap);
    proof {
        snapshot_registry_is_exact(snap@);
    }
    assemble(shared, scopes, &registry, opts, seq, Ghost(t))
}

/// Encodes a compacted forest straight into Puffin blob payloads as it is
/// streamed, so the flush path never materializes the state it is writing.
///
/// A forest is streamed in ascending key order, exactly the layout the blobs
/// need, so each fixed-stride table is written once, in place, with no
/// intermediate list of pairs and no sort. The one term still proportional to
/// state is the registry, which must be sorted by root *across* scopes and so
/// is buffered.
pub struct BlobWriter {
    sequence: i64,
    opts: WriteOptions,
    shared: TableWriter,
    /// The scope currently open.
    open: Option<OpenTable>,
    registry: Vec<(NodeId, ScopeId)>,
    scopes: Vec<ScopeTable>,
    events: Ghost<Seq<SinkEvent>>,
}

struct OpenTable {
    scope: ScopeId,
    table: TableWriter,
}

/// The tables that collecting `events` gives.
pub open spec fn collected_tables(events: Seq<SinkEvent>) -> SnapshotView {
    SnapshotView { global: collected(events).global, scopes: collected(events).scopes }
}

impl BlobWriter {
    pub closed spec fn sequence(&self) -> i64 {
        self.sequence
    }

    pub closed spec fn opts(&self) -> WriteOptions {
        self.opts
    }

    pub fn new(sequence: u64, opts: WriteOptions) -> (w: BlobWriter)
        ensures
            w.wf(),
            w.received() == Seq::<SinkEvent>::empty(),
            w.sequence() == sequence as i64,
            w.opts() == opts,
    {
        BlobWriter {
            sequence: sequence as i64,
            opts,
            shared: TableWriter::new(),
            open: None,
            registry: Vec::new(),
            scopes: Vec::new(),
            events: Ghost(Seq::empty()),
        }
    }

    /// The blobs of what was received. Blob order is that of
    /// [`snapshot_to_blobs`].
    pub fn finish(self) -> (blobs: Vec<Blob>)
        requires
            self.wf(),
        ensures
            blob_views(blobs@) == base_blobs(
                collected_tables(self.received()),
                registry_listing(registry_events(self.received())),
                self.opts(),
                self.sequence(),
            ),
            registry_listing(registry_events(self.received())).len() <= usize::MAX,
    {
        let registry = list_registry(self.registry);
        assert(registry.len() <= usize::MAX);
        proof {
            registry_listing_lists(registry_events(self.events@));
        }
        let shared = freeze(self.shared.close());
        assemble(
            shared,
            self.scopes,
            &registry,
            self.opts,
            self.sequence,
            Ghost(collected_tables(self.events@)),
        )
    }
}

impl SnapshotSink for BlobWriter {
    type Setup = (i64, WriteOptions);

    open spec fn setup(&self) -> (i64, WriteOptions) {
        (self.sequence(), self.opts())
    }

    closed spec fn received(&self) -> Seq<SinkEvent> {
        self.events@
    }

    closed spec fn wf(&self) -> bool {
        let c = collected(self.events@);
        &&& self.shared.wf()
        &&& self.shared.pairs() == c.global
        &&& scopes_encode(self.scopes@, c.scopes)
        &&& self.registry@ == registry_events(self.events@)
        &&& match self.open {
            Some(o) => o.table.wf() && c.open == Some(
                ScopePairs { scope: o.scope, pairs: o.table.pairs() },
            ),
            None => c.open is None,
        }
    }

    fn shared_pair(&mut self, node: NodeId, root: NodeId) {
        self.shared.push(node, root);
        proof {
            self.events@ = self.events@.push(SinkEvent::Shared { node, root });
            assert(self.events@.drop_last() =~= old(self).events@);
        }
    }

    fn overlay_pair(&mut self, node: NodeId, root: NodeId) {
        if let Some(open) = &mut self.open {
            open.table.push(node, root);
        }
        proof {
            self.events@ = self.events@.push(SinkEvent::Overlay { node, root });
            assert(self.events@.drop_last() =~= old(self).events@);
        }
    }

    fn scope_start(&mut self, scope: ScopeId) {
        self.open = Some(OpenTable { scope, table: TableWriter::new() });
        proof {
            self.events@ = self.events@.push(SinkEvent::ScopeStart { scope });
            assert(self.events@.drop_last() =~= old(self).events@);
        }
    }

    /// A scope whose overlay resolved to nothing gets no blob at all.
    fn scope_end(&mut self, scope: ScopeId) {
        if let Some(open) = self.open.take() {
            if open.table.count() > 0 {
                let data = freeze(open.table.close());
                self.scopes.push(ScopeTable { scope: open.scope, data });
            }
        }
        proof {
            self.events@ = self.events@.push(SinkEvent::ScopeEnd { scope });
            assert(self.events@.drop_last() =~= old(self).events@);
        }
    }

    fn registry_entry(&mut self, root: NodeId, scope: ScopeId) {
        self.registry.push((root, scope));
        proof {
            self.events@ = self.events@.push(SinkEvent::Registry { root, scope });
            assert(self.events@.drop_last() =~= old(self).events@);
        }
    }
}

/// Compacts `forest` directly into Puffin blobs: the bytes that
/// [`snapshot_to_blobs`] makes of its snapshot, without the intermediate.
/// This is the flush path.
pub fn compact_to_blobs(forest: &mut ScopedForest, sequence: u64, opts: WriteOptions) -> (blobs:
    Vec<Blob>)
    requires
        old(forest).wf(),
    ensures
        final(forest).wf(),
        final(forest).agrees(old(forest)),
        old(forest).consistent() ==> blob_views(blobs@) == base_blobs(
            collected_tables(old(forest).stream(true)),
            registry_listing(registry_events(old(forest).stream(true))),
            opts,
            sequence as i64,
        ),
{
    let mut writer = BlobWriter::new(sequence, opts);
    forest.compact_into(&mut writer);
    assert(old(forest).consistent() ==> writer.received() =~= old(forest).stream(true));
    writer.finish()
}

// --- reading blobs back ----------------------------------------------------------------------------

/// Why blobs are not a snapshot.
#[derive(Debug, Clone, Copy, PartialEq, Eq, Structural)]
pub enum CodecError {
    /// A table's payload is malformed.
    Table(TableError),
    /// A scope's blob does not say which scope it is of.
    MissingScope,
    /// A scope's blob names something that is no scope.
    BadScope,
}

/// The scope that a blob's properties name.
pub open spec fn named_scope(properties: Seq<(Seq<char>, Seq<char>)>) -> Result<
    ScopeId,
    CodecError,
> {
    match property(properties, SCOPE_ID_PROP@) {
        None => Err(CodecError::MissingScope),
        Some(text) => match parsed(text, u32::MAX as nat) {
            None => Err(CodecError::BadScope),
            Some(n) => Ok(n as ScopeId),
        },
    }
}

/// The scope a blob's properties name.
pub fn scope_named(properties: &Vec<(String, String)>) -> (r: Result<ScopeId, CodecError>)
    ensures
        r == named_scope(properties_view(properties@)),
{
    match find_property(properties, SCOPE_ID_PROP) {
        None => Err(CodecError::MissingScope),
        Some(text) => match parse_decimal(text.as_str(), u32::MAX as u64) {
            None => Err(CodecError::BadScope),
            Some(n) => Ok(n as ScopeId),
        },
    }
}

/// The scope a per-scope blob carries in its properties; the global scope
/// where it carries none.
pub fn scope_of(blob: &Blob) -> (scope: ScopeId)
    ensures
        scope == match named_scope(blob@.properties) {
            Ok(s) => s,
            Err(_) => 0,
        },
{
    match scope_named(&blob.properties) {
        Ok(s) => s,
        Err(_) => 0,
    }
}

/// The pairs that a table payload holds.
pub open spec fn decoded_pairs(data: Seq<u8>) -> Result<Seq<(NodeId, NodeId)>, CodecError> {
    match table_error(data, 0, data.len() as int, 16) {
        Some(e) => Err(CodecError::Table(e)),
        None => Ok(pairs_at(data, 0, u64_at(data, 0) as nat)),
    }
}

/// `scopes` with `s` after every scope that is not larger.
pub open spec fn scope_placed(scopes: Seq<ScopePairs>, s: ScopePairs) -> Seq<ScopePairs>
    decreases scopes.len(),
{
    if scopes.len() == 0 || scopes.last().scope <= s.scope {
        scopes.push(s)
    } else {
        scope_placed(scopes.drop_last(), s).push(scopes.last())
    }
}

/// `snap` with what one more blob adds. Unknown blob types add nothing.
pub open spec fn decode_step(snap: SnapshotView, blob: BlobView) -> Result<
    SnapshotView,
    CodecError,
> {
    if blob.blob_type == GLOBAL_BLOB_TYPE@ {
        match decoded_pairs(blob.data) {
            Err(e) => Err(e),
            Ok(pairs) => Ok(SnapshotView { global: pairs, ..snap }),
        }
    } else if blob.blob_type == SCOPE_BLOB_TYPE@ {
        match named_scope(blob.properties) {
            Err(e) => Err(e),
            Ok(scope) => match decoded_pairs(blob.data) {
                Err(e) => Err(e),
                Ok(pairs) => Ok(
                    SnapshotView {
                        scopes: scope_placed(snap.scopes, ScopePairs { scope, pairs }),
                        ..snap
                    },
                ),
            },
        }
    } else {
        Ok(snap)
    }
}

/// The snapshot that `blobs` hold, scopes ascending, or what is wrong with the
/// first malformed one.
pub open spec fn decoded_snapshot(blobs: Seq<BlobView>) -> Result<SnapshotView, CodecError>
    decreases blobs.len(),
{
    if blobs.len() == 0 {
        Ok(SnapshotView { global: Seq::empty(), scopes: Seq::empty() })
    } else {
        match decoded_snapshot(blobs.drop_last()) {
            Err(e) => Err(e),
            Ok(snap) => decode_step(snap, blobs.last()),
        }
    }
}

fn decode_table(data: &bytes::Bytes) -> (r: Result<Vec<(NodeId, NodeId)>, CodecError>)
    ensures
        match r {
            Ok(pairs) => decoded_pairs(payload_content(*data)) == Ok::<
                Seq<(NodeId, NodeId)>,
                CodecError,
            >(pairs@),
            Err(e) => decoded_pairs(payload_content(*data)) == Err::<
                Seq<(NodeId, NodeId)>,
                CodecError,
            >(e),
        },
{
    match decode_pairs(slice_of(data)) {
        Ok(pairs) => Ok(pairs),
        Err(e) => Err(CodecError::Table(e)),
    }
}

fn place_scope(
    scopes: &mut Vec<(ScopeId, Vec<(NodeId, NodeId)>)>,
    scope: ScopeId,
    pairs: Vec<(NodeId, NodeId)>,
)
    ensures
        scope_views(final(scopes)@) == scope_placed(
            scope_views(old(scopes)@),
            ScopePairs { scope, pairs: pairs@ },
        ),
{
    let ghost before = scopes@;
    let ghost s = ScopePairs { scope, pairs: pairs@ };
    let mut at: usize = scopes.len();
    let ghost all = scope_views(before);
    proof {
        assert(all.take(at as int) =~= all);
        assert(scope_placed(all.take(at as int), s) + all.skip(at as int) =~= scope_placed(all, s));
    }
    while at > 0 && scopes[at - 1].0 > scope
        invariant
            at <= scopes.len(),
            scopes@ == before,
            s.scope == scope,
            all == scope_views(before),
            scope_placed(all.take(at as int), s) + all.skip(at as int) == scope_placed(all, s),
        decreases at,
    {
        proof {
            let here = all.take(at as int);
            assert(here.last().scope == scopes@[at - 1].0);
            assert(here.drop_last() =~= all.take(at - 1));
            assert(scope_placed(here, s) == scope_placed(all.take(at - 1), s).push(here.last()));
            assert(all.skip(at - 1) =~= seq![here.last()] + all.skip(at as int));
            assert(scope_placed(here, s) + all.skip(at as int) =~= scope_placed(
                all.take(at - 1),
                s,
            ) + all.skip(at - 1));
        }
        at = at - 1;
    }
    proof {
        let here = all.take(at as int);
        if at > 0 {
            assert(here.last().scope == scopes@[at - 1].0);
        }
        assert(scope_placed(here, s) == here.push(s));
    }
    scopes.insert(at, (scope, pairs));
    assert(scope_views(scopes@) =~= all.take(at as int).push(s) + all.skip(at as int));
}

pub open spec fn scope_views(scopes: Seq<(ScopeId, Vec<(NodeId, NodeId)>)>) -> Seq<ScopePairs> {
    scopes.map_values(|s: (ScopeId, Vec<(NodeId, NodeId)>)| scope_pairs_view(s))
}

/// Decodes Puffin blobs back into a forest snapshot. Unknown blob types are
/// ignored.
pub fn blobs_to_snapshot(blobs: &[Blob]) -> (r: Result<ForestSnapshot, CodecError>)
    ensures
        match r {
            Ok(snap) => decoded_snapshot(blob_views(blobs@)) == Ok::<SnapshotView, CodecError>(
                snap@,
            ),
            Err(e) => decoded_snapshot(blob_views(blobs@)) == Err::<SnapshotView, CodecError>(e),
        },
{
    let ghost all = blob_views(blobs@);
    let mut snap = ForestSnapshot { global: Vec::new(), scopes: Vec::new() };
    let mut i: usize = 0;
    assert(snap@ =~= (SnapshotView { global: Seq::empty(), scopes: Seq::empty() }));
    while i < blobs.len()
        invariant
            i <= blobs.len(),
            all == blob_views(blobs@),
            decoded_snapshot(all.take(i as int)) == Ok::<SnapshotView, CodecError>(snap@),
        decreases blobs.len() - i,
    {
        let blob = &blobs[i];
        let ghost was = snap@;
        proof {
            assert(all.take(i + 1).drop_last() =~= all.take(i as int));
            assert(all.take(i + 1).last() == blob@);
            decoding_stops(all, i + 1);
        }
        if same_text(blob.blob_type.as_str(), GLOBAL_BLOB_TYPE) {
            match decode_table(&blob.data) {
                Ok(pairs) => {
                    snap.global = pairs;
                },
                Err(e) => {
                    return Err(e);
                },
            }
            assert(snap@ =~= (SnapshotView { global: snap.global@, ..was }));
        } else if same_text(blob.blob_type.as_str(), SCOPE_BLOB_TYPE) {
            let scope: ScopeId = match scope_named(&blob.properties) {
                Ok(s) => s,
                Err(e) => {
                    return Err(e);
                },
            };
            match decode_table(&blob.data) {
                Ok(pairs) => {
                    let ghost s = ScopePairs { scope, pairs: pairs@ };
                    place_scope(&mut snap.scopes, scope, pairs);
                    assert(snap@ =~= (SnapshotView { scopes: scope_placed(was.scopes, s), ..was }));
                },
                Err(e) => {
                    return Err(e);
                },
            }
        }
        i += 1;
    }
    assert(all.take(i as int) =~= all);
    Ok(snap)
}

/// Decoding stops at the first malformed blob.
proof fn decoding_stops(blobs: Seq<BlobView>, i: int)
    requires
        0 <= i <= blobs.len(),
    ensures
        decoded_snapshot(blobs.take(i)) is Err ==> decoded_snapshot(blobs) == decoded_snapshot(
            blobs.take(i),
        ),
    decreases blobs.len(),
{
    if i == blobs.len() {
        assert(blobs.take(i) =~= blobs);
    } else {
        assert(blobs.drop_last().take(i) =~= blobs.take(i));
        decoding_stops(blobs.drop_last(), i);
    }
}

// --- laws --------------------------------------------------------------------------------------------

/// In a table with ascending keys, the live root of a node is the one its
/// links record.
pub proof fn live_of_listed(pairs: Seq<(NodeId, NodeId)>, links: Map<NodeId, NodeId>, x: NodeId)
    requires
        lists(pairs, links),
    ensures
        live(pairs, x) == step_up(links, x),
{
    live_finds(pairs, x);
    if links.contains_key(x) {
        let i = choose|i: int| 0 <= i < pairs.len() && (#[trigger] pairs[i]).0 == x;
        assert(pairs[i].0 == x);
    }
}

proof fn live_finds(pairs: Seq<(NodeId, NodeId)>, x: NodeId)
    requires
        ascending(pairs),
    ensures
        forall|i: int| 0 <= i < pairs.len() && (#[trigger] pairs[i]).0 == x ==> live(pairs, x) == pairs[i].1,
        (forall|i: int| 0 <= i < pairs.len() ==> (#[trigger] pairs[i]).0 != x) ==> live(pairs, x) == x,
    decreases pairs.len(),
{
    if pairs.len() > 0 {
        let front = pairs.drop_last();
        assert forall|i: int, j: int| 0 <= i < j < front.len() implies (#[trigger] front[i]).0 < (
        #[trigger] front[j]).0 by {
            assert(pairs[i].0 < pairs[j].0);
        }
        live_finds(front, x);
        let n = pairs.len() - 1;
        assert forall|i: int| 0 <= i < pairs.len() && (#[trigger] pairs[i]).0 == x implies live(
            pairs,
            x,
        ) == pairs[i].1 by {
            if i < n {
                assert(pairs[i].0 < pairs[n].0);
                assert(front[i] == pairs[i]);
            }
        }
        if forall|i: int| 0 <= i < pairs.len() ==> (#[trigger] pairs[i]).0 != x {
            assert(pairs[n].0 != x);
            assert forall|i: int| 0 <= i < front.len() implies (#[trigger] front[i]).0 != x by {
                assert(pairs[i].0 != x);
            }
        }
    }
}

/// A table with ascending keys is already sorted.
pub proof fn ascending_is_sorted(pairs: Seq<(NodeId, NodeId)>)
    requires
        ascending(pairs),
    ensures
        pairs_sorted(pairs) == pairs,
{
    assert forall|i: int, j: int| 0 <= i < j < pairs.len() implies entry_le(
        #[trigger] pairs[i],
        #[trigger] pairs[j],
    ) by {
        assert(pairs[i].0 < pairs[j].0);
    }
    pairs_sorted_is(pairs, pairs);
}

/// The registry of a capture is what the stream it was collected from
/// registers.
proof fn registries_agree(forest: &ScopedForest, snap: SnapshotView)
    requires
        forest.wf(),
        forest.consistent(),
        forest.captured_in(snap),
    ensures
        snapshot_registry(snap) == registry_listing(registry_events(forest.stream(true))),
{
    forest.whole_stream_registers_the_base();
    snapshot_registry_is_exact(snap);
    let raw = registry_events(forest.stream(true));
    registry_listing_lists(raw);
    let a = snapshot_registry(snap);
    let b = registry_listing(raw);
    forest.encoded_pairs_resolve(None);
    assert forall|e: (NodeId, ScopeId)| a.contains(e) <==> b.contains(e) by {
        let (root, scope) = e;
        assert(a.contains(e) <==> keyed_on(snap, root, scope));
        assert(b.contains(e) <==> raw.contains(e));
        assert(raw.contains(e) <==> forest.encoded_registry(root).contains(scope));
        if keyed_on(snap, root, scope) {
            let (i, j) = choose|i: int, j: int| #[trigger] pair_keyed_on(snap, i, j, root, scope);
            let p = snap.scopes[i].pairs[j];
            assert(snap.scopes[i].pairs.len() > 0);
            assert(lists(snap.scopes[i].pairs, forest.encoded(Some(scope))));
            live_of_listed(snap.global, forest.encoded(None), p.0);
            live_of_listed(snap.global, forest.encoded(None), p.1);
            assert(forest.pair_touches(scope, p.0, root));
        }
        if forest.encoded_registry(root).contains(scope) {
            let k = choose|k: NodeId| #[trigger] forest.pair_touches(scope, k, root);
            assert(forest.encoded(Some(scope)).contains_key(k));
            assert(lists_scope(snap.scopes, scope));
            let i = choose|i: int| 0 <= i < snap.scopes.len() && (#[trigger] snap.scopes[i]).scope == scope;
            let pairs = snap.scopes[i].pairs;
            assert(lists(pairs, forest.encoded(Some(scope))));
            let j = choose|j: int| 0 <= j < pairs.len() && (#[trigger] pairs[j]).0 == k;
            live_of_listed(snap.global, forest.encoded(None), pairs[j].0);
            live_of_listed(snap.global, forest.encoded(None), pairs[j].1);
            assert(pair_keyed_on(snap, i, j, root, scope));
        }
    }
    strict_registries_agree(a, b);
}

/// **The streaming and the collecting path write the same bytes**: the blobs
/// made of a forest's snapshot are the blobs written as the forest is
/// streamed, so a committed base does not depend on which path wrote it.
pub proof fn streaming_and_collecting_agree(
    forest: &ScopedForest,
    snap: SnapshotView,
    opts: WriteOptions,
    seq: i64,
)
    requires
        forest.wf(),
        forest.consistent(),
        snap == collected_tables(forest.stream(true)),
    ensures
        base_blobs(sorted_tables(snap), snapshot_registry(snap), opts, seq) == base_blobs(
            collected_tables(forest.stream(true)),
            registry_listing(registry_events(forest.stream(true))),
            opts,
            seq,
        ),
{
    forest.collecting_the_stream_captures();
    ascending_is_sorted(snap.global);
    let sorted = sorted_tables(snap);
    assert forall|i: int|
        0 <= i < snap.scopes.len()
    implies sorted.scopes[i] == #[trigger] snap.scopes[i] by {
        assert(snap.scopes[i].pairs.len() > 0);
        ascending_is_sorted(snap.scopes[i].pairs);
    }
    assert(sorted.scopes =~= snap.scopes);
    assert(sorted =~= snap);
    registries_agree(forest, snap);
}

/// The blob type is one of the registry's.
pub open spec fn is_registry_type(t: Seq<char>) -> bool {
    t == FLAT_BLOB_TYPE@ || t == BLOCKED_BLOB_TYPE@
}

/// No blob is mistaken for one of another type.
pub proof fn other_types(opts: WriteOptions)
    ensures
        ({
            let g = GLOBAL_BLOB_TYPE@;
            let s = SCOPE_BLOB_TYPE@;
            &&& g != s
            &&& registry_type(opts.registry) != g && registry_type(opts.registry) != s
            &&& SHARED_FILTER_BLOB_TYPE@ != g && SHARED_FILTER_BLOB_TYPE@ != s
            &&& OVERLAY_FILTER_BLOB_TYPE@ != g && OVERLAY_FILTER_BLOB_TYPE@ != s
            &&& SHARED_MEMBERS_FILTER_BLOB_TYPE@ != g && SHARED_MEMBERS_FILTER_BLOB_TYPE@ != s
            &&& OVERLAY_MEMBERS_FILTER_BLOB_TYPE@ != g && OVERLAY_MEMBERS_FILTER_BLOB_TYPE@ != s
            &&& forall|tier: Tier| #[trigger]
                members_type(opts.members, tier) != g && members_type(opts.members, tier) != s
                    && !is_registry_type(members_type(opts.members, tier))
            &&& !is_registry_type(g) && !is_registry_type(s)
            &&& !is_registry_type(SHARED_FILTER_BLOB_TYPE@)
            &&& !is_registry_type(OVERLAY_FILTER_BLOB_TYPE@)
            &&& !is_registry_type(SHARED_MEMBERS_FILTER_BLOB_TYPE@)
            &&& !is_registry_type(OVERLAY_MEMBERS_FILTER_BLOB_TYPE@)
            &&& FLAT_BLOB_TYPE@ != BLOCKED_BLOB_TYPE@
        }),
{
    reveal_strlit("blaze-global-dsu-v1");
    reveal_strlit("blaze-scope-dsu-v1");
    reveal_strlit("blaze-registry-v1");
    reveal_strlit("blaze-registry-v2");
    reveal_strlit("blaze-shared-filter-v1");
    reveal_strlit("blaze-overlay-filter-v1");
    reveal_strlit("blaze-shared-members-filter-v1");
    reveal_strlit("blaze-overlay-members-filter-v1");
    reveal_strlit("blaze-shared-members-v1");
    reveal_strlit("blaze-shared-members-v2");
    reveal_strlit("blaze-overlay-members-v1");
    reveal_strlit("blaze-overlay-members-v2");
    assert(FLAT_BLOB_TYPE@.len() == 17 && BLOCKED_BLOB_TYPE@.len() == 17);
    assert(FLAT_BLOB_TYPE@[16] == '1' && BLOCKED_BLOB_TYPE@[16] == '2');
    assert(GLOBAL_BLOB_TYPE@.len() == 19);
    assert(SCOPE_BLOB_TYPE@.len() == 18);
    assert(registry_type(opts.registry).len() == 17);
    assert(SHARED_FILTER_BLOB_TYPE@.len() == 22);
    assert(OVERLAY_FILTER_BLOB_TYPE@.len() == 23);
    assert(SHARED_MEMBERS_FILTER_BLOB_TYPE@.len() == 30);
    assert(OVERLAY_MEMBERS_FILTER_BLOB_TYPE@.len() == 31);
    assert(members_type(opts.members, Tier::Shared).len() == 23);
    assert(members_type(opts.members, Tier::Overlay).len() == 24);
    assert forall|tier: Tier| #[trigger]
        members_type(opts.members, tier) != GLOBAL_BLOB_TYPE@ && members_type(opts.members, tier)
            != SCOPE_BLOB_TYPE@ && !is_registry_type(members_type(opts.members, tier)) by {
        match tier {
            Tier::Shared => {},
            Tier::Overlay => {},
        }
    }
}

/// Blobs that are no tables add nothing to what was decoded.
proof fn ignored_blobs(blobs: Seq<BlobView>, more: Seq<BlobView>)
    requires
        forall|i: int|
            0 <= i < more.len() ==> (#[trigger] more[i]).blob_type != GLOBAL_BLOB_TYPE@
                && more[i].blob_type != SCOPE_BLOB_TYPE@,
    ensures
        decoded_snapshot(blobs + more) == decoded_snapshot(blobs),
    decreases more.len(),
{
    if more.len() == 0 {
        assert(blobs + more =~= blobs);
    } else {
        assert((blobs + more).drop_last() =~= blobs + more.drop_last());
        assert((blobs + more).last() == more.last());
        ignored_blobs(blobs, more.drop_last());
    }
}

/// The tables are short enough to be addressed.
pub open spec fn tables_fit(t: SnapshotView) -> bool {
    &&& t.global.len() <= u64::MAX
    &&& forall|i: int| 0 <= i < t.scopes.len() ==> (#[trigger] t.scopes[i]).pairs.len() <= u64::MAX
}

pub open spec fn scopes_strict(scopes: Seq<ScopePairs>) -> bool {
    forall|i: int, j: int|
        0 <= i < j < scopes.len() ==> (#[trigger] scopes[i]).scope < (#[trigger] scopes[j]).scope
}

proof fn table_decodes(pairs: Seq<(NodeId, NodeId)>)
    requires
        pairs.len() <= u64::MAX,
    ensures
        decoded_pairs(table_bytes(pairs)) == Ok::<Seq<(NodeId, NodeId)>, CodecError>(pairs),
{
    let data = table_bytes(pairs);
    assert(data.subrange(0, data.len() as int) =~= data);
    assert(holds_at(data, 0, data));
    table_reads_back(data, 0, pairs);
}

proof fn tables_decode(t: SnapshotView, seq: i64, n: nat)
    requires
        tables_fit(t),
        scopes_strict(t.scopes),
        n <= t.scopes.len(),
    ensures
        decoded_snapshot(table_blobs(t, seq).take(n as int + 1)) == Ok::<SnapshotView, CodecError>(
            SnapshotView { global: t.global, scopes: t.scopes.take(n as int) },
        ),
    decreases n,
{
    let all = table_blobs(t, seq);
    let part = all.take(n as int + 1);
    if n == 0 {
        assert(part.drop_last() =~= Seq::empty());
        assert(part.last() == all[0]);
        table_decodes(t.global);
        assert(t.scopes.take(0) =~= Seq::empty());
        let none = SnapshotView { global: Seq::empty(), scopes: Seq::empty() };
        assert(decoded_snapshot(part.drop_last()) == Ok::<SnapshotView, CodecError>(none));
        assert(decode_step(none, all[0]) == Ok::<SnapshotView, CodecError>(
            SnapshotView { global: t.global, ..none },
        ));
    } else {
        let i = n as int - 1;
        tables_decode(t, seq, (n - 1) as nat);
        assert(part.drop_last() =~= all.take(n as int));
        assert(part.last() == all[n as int]);
        let s = t.scopes[i];
        let before = t.scopes.take(i);
        if before.len() > 0 {
            assert(before.last() == t.scopes[i - 1]);
            assert(t.scopes[i - 1].scope < t.scopes[i].scope);
        }
        assert(before.push(s) =~= t.scopes.take(n as int));
        scope_table_decodes(SnapshotView { global: t.global, scopes: before }, s, seq);
    }
}

proof fn scope_table_decodes(snap: SnapshotView, s: ScopePairs, seq: i64)
    requires
        s.pairs.len() <= u64::MAX,
        snap.scopes.len() > 0 ==> snap.scopes.last().scope <= s.scope,
    ensures
        decode_step(snap, scope_blob(SCOPE_BLOB_TYPE@, table_bytes(s.pairs), s.scope, seq)) == Ok::<
            SnapshotView,
            CodecError,
        >(SnapshotView { scopes: snap.scopes.push(s), ..snap }),
{
    let b = scope_blob(SCOPE_BLOB_TYPE@, table_bytes(s.pairs), s.scope, seq);
    let any = WriteOptions {
        filter_bits: 0,
        registry: RegistryEncoding::Flat,
        member_index: false,
        members: MemberEncoding::Flat,
    };
    other_types(any);
    assert(b.properties[0] == (SCOPE_ID_PROP@, decimal(s.scope as nat)));
    decimal_reads_back(s.scope as nat, u32::MAX as nat);
    assert(named_scope(b.properties) == Ok::<ScopeId, CodecError>(s.scope));
    table_decodes(s.pairs);
    assert(scope_placed(snap.scopes, s) == snap.scopes.push(s));
}

/// **What a base is written as decodes to its tables**: filters, registry and
/// member index are passed over.
pub proof fn base_blobs_decode(
    t: SnapshotView,
    entries: Seq<(NodeId, ScopeId)>,
    opts: WriteOptions,
    seq: i64,
)
    requires
        tables_fit(t),
        scopes_strict(t.scopes),
    ensures
        decoded_snapshot(base_blobs(t, entries, opts, seq)) == Ok::<SnapshotView, CodecError>(t),
{
    let all = base_blobs(t, entries, opts, seq);
    let tables = table_blobs(t, seq);
    let more = all.skip(tables.len() as int);
    assert(all =~= tables + more);
    other_types(opts);
    index_blobs_are_no_tables(t, entries, opts, seq);
    ignored_blobs(tables, more);
    tables_decode(t, seq, t.scopes.len());
    assert(tables.take(t.scopes.len() as int + 1) =~= tables);
    assert(t.scopes.take(t.scopes.len() as int) =~= t.scopes);
}

proof fn overlay_member_types(scopes: Seq<ScopePairs>, encoding: MemberEncoding, seq: i64)
    ensures
        forall|i: int|
            0 <= i < overlay_member_blobs(scopes, encoding, seq).len() ==> (
            #[trigger] overlay_member_blobs(scopes, encoding, seq)[i]).blob_type == members_type(
                encoding,
                Tier::Overlay,
            ),
    decreases scopes.len(),
{
    if scopes.len() > 0 {
        let before = overlay_member_blobs(scopes.drop_last(), encoding, seq);
        let all = overlay_member_blobs(scopes, encoding, seq);
        overlay_member_types(scopes.drop_last(), encoding, seq);
        assert forall|i: int| 0 <= i < all.len() implies (#[trigger] all[i]).blob_type
            == members_type(encoding, Tier::Overlay) by {
            if i < before.len() {
                assert(all[i] == before[i]);
            }
        }
    }
}

/// Whatever a base holds beside its tables is of another type.
pub proof fn index_blobs_are_no_tables(
    t: SnapshotView,
    entries: Seq<(NodeId, ScopeId)>,
    opts: WriteOptions,
    seq: i64,
)
    ensures
        forall|i: int|
            t.scopes.len() < i < base_blobs(t, entries, opts, seq).len() ==> (
            #[trigger] base_blobs(t, entries, opts, seq)[i]).blob_type != GLOBAL_BLOB_TYPE@
                && base_blobs(t, entries, opts, seq)[i].blob_type != SCOPE_BLOB_TYPE@,
        forall|i: int|
            t.scopes.len() + registry_blob(entries, opts.registry, seq).len() < i < base_blobs(
                t,
                entries,
                opts,
                seq,
            ).len() ==> !is_registry_type(
                (#[trigger] base_blobs(t, entries, opts, seq)[i]).blob_type,
            ),
{
    other_types(opts);
    overlay_member_types(t.scopes, opts.members, seq);
    let a = table_blobs(t, seq);
    let b = registry_blob(entries, opts.registry, seq);
    let c = filter_blob(SHARED_FILTER_BLOB_TYPE@, keys_of(t.global), opts.filter_bits, seq);
    let d = filter_blob(OVERLAY_FILTER_BLOB_TYPE@, overlay_keys(t.scopes), opts.filter_bits, seq);
    let m = if opts.member_index {
        member_blobs(t, opts, seq)
    } else {
        Seq::empty()
    };
    let all = base_blobs(t, entries, opts, seq);
    assert(all == a + b + c + d + m);
    let e = shared_member_blob(t.global, opts.members, seq);
    let f = overlay_member_blobs(t.scopes, opts.members, seq);
    let g = filter_blob(
        SHARED_MEMBERS_FILTER_BLOB_TYPE@,
        first_columns(member_pairs(t.global)),
        opts.filter_bits,
        seq,
    );
    let h = filter_blob(
        OVERLAY_MEMBERS_FILTER_BLOB_TYPE@,
        overlay_parents(t.scopes),
        opts.filter_bits,
        seq,
    );
    assert forall|i: int| 0 <= i < m.len() implies (#[trigger] m[i]).blob_type != GLOBAL_BLOB_TYPE@
        && m[i].blob_type != SCOPE_BLOB_TYPE@ && !is_registry_type(m[i].blob_type) by {
        assert(m == e + f + g + h);
        if i < e.len() {
            assert(m[i] == e[i]);
        } else if i < e.len() + f.len() {
            assert(m[i] == f[i - e.len()]);
        } else if i < e.len() + f.len() + g.len() {
            assert(m[i] == g[i - e.len() - f.len()]);
        } else {
            assert(m[i] == h[i - e.len() - f.len() - g.len()]);
        }
    }
    assert forall|i: int| t.scopes.len() < i < all.len() implies (#[trigger] all[i]).blob_type
        != GLOBAL_BLOB_TYPE@ && all[i].blob_type != SCOPE_BLOB_TYPE@ && (t.scopes.len() + b.len()
        < i ==> !is_registry_type(all[i].blob_type)) by {
        let n = a.len() as int;
        assert(n == t.scopes.len() + 1);
        if i < n + b.len() {
            assert(all[i] == b[i - n]);
        } else if i < n + b.len() + c.len() {
            assert(all[i] == c[i - n - b.len()]);
        } else if i < n + b.len() + c.len() + d.len() {
            assert(all[i] == d[i - n - b.len() - c.len()]);
        } else {
            assert(all[i] == m[i - n - b.len() - c.len() - d.len()]);
        }
    }
}

/// No blob is mistaken for a member index, nor one tier's for the other's.
pub proof fn member_types_apart(opts: WriteOptions)
    ensures
        ({
            let shared = members_type(opts.members, Tier::Shared);
            let overlay = members_type(opts.members, Tier::Overlay);
            &&& is_shared_members(shared) && !is_overlay_members(shared)
            &&& is_overlay_members(overlay) && !is_shared_members(overlay)
            &&& SHARED_FLAT_BLOB_TYPE@ != SHARED_BLOCKED_BLOB_TYPE@
            &&& OVERLAY_FLAT_BLOB_TYPE@ != OVERLAY_BLOCKED_BLOB_TYPE@
            &&& no_members(GLOBAL_BLOB_TYPE@) && no_members(SCOPE_BLOB_TYPE@)
            &&& no_members(registry_type(opts.registry))
            &&& no_members(SHARED_FILTER_BLOB_TYPE@) && no_members(OVERLAY_FILTER_BLOB_TYPE@)
            &&& no_members(SHARED_MEMBERS_FILTER_BLOB_TYPE@)
            &&& no_members(OVERLAY_MEMBERS_FILTER_BLOB_TYPE@)
        }),
{
    reveal_strlit("blaze-global-dsu-v1");
    reveal_strlit("blaze-scope-dsu-v1");
    reveal_strlit("blaze-registry-v1");
    reveal_strlit("blaze-registry-v2");
    reveal_strlit("blaze-shared-filter-v1");
    reveal_strlit("blaze-overlay-filter-v1");
    reveal_strlit("blaze-shared-members-filter-v1");
    reveal_strlit("blaze-overlay-members-filter-v1");
    reveal_strlit("blaze-shared-members-v1");
    reveal_strlit("blaze-shared-members-v2");
    reveal_strlit("blaze-overlay-members-v1");
    reveal_strlit("blaze-overlay-members-v2");
    assert(SHARED_FLAT_BLOB_TYPE@.len() == 23 && SHARED_BLOCKED_BLOB_TYPE@.len() == 23);
    assert(OVERLAY_FLAT_BLOB_TYPE@.len() == 24 && OVERLAY_BLOCKED_BLOB_TYPE@.len() == 24);
    assert(SHARED_FLAT_BLOB_TYPE@[22] == '1' && SHARED_BLOCKED_BLOB_TYPE@[22] == '2');
    assert(OVERLAY_FLAT_BLOB_TYPE@[23] == '1' && OVERLAY_BLOCKED_BLOB_TYPE@[23] == '2');
    assert(GLOBAL_BLOB_TYPE@.len() == 19);
    assert(SCOPE_BLOB_TYPE@.len() == 18);
    assert(FLAT_BLOB_TYPE@.len() == 17 && BLOCKED_BLOB_TYPE@.len() == 17);
    assert(SHARED_FILTER_BLOB_TYPE@.len() == 22);
    assert(SHARED_MEMBERS_FILTER_BLOB_TYPE@.len() == 30);
    assert(OVERLAY_MEMBERS_FILTER_BLOB_TYPE@.len() == 31);
    assert(OVERLAY_FILTER_BLOB_TYPE@.len() == 23);
    assert(OVERLAY_FILTER_BLOB_TYPE@[6] == 'o');
    assert(SHARED_FLAT_BLOB_TYPE@[6] == 's' && SHARED_BLOCKED_BLOB_TYPE@[6] == 's');
}

/// A blob of this type is no member index.
pub open spec fn no_members(t: Seq<char>) -> bool {
    !is_shared_members(t) && !is_overlay_members(t)
}

/// A base's member indexes are the ones the option asked for.
pub proof fn member_blobs_stand_apart(
    t: SnapshotView,
    entries: Seq<(NodeId, ScopeId)>,
    opts: WriteOptions,
    seq: i64,
    i: int,
)
    requires
        0 <= i < base_blobs(t, entries, opts, seq).len(),
    ensures
        ({
            let blob = base_blobs(t, entries, opts, seq)[i];
            &&& is_shared_members(blob.blob_type) ==> shared_member_blob(
                t.global,
                opts.members,
                seq,
            ).contains(blob)
            &&& is_overlay_members(blob.blob_type) ==> overlay_member_blobs(
                t.scopes,
                opts.members,
                seq,
            ).contains(blob)
        }),
{
    member_types_apart(opts);
    overlay_member_types(t.scopes, opts.members, seq);
    let a = table_blobs(t, seq);
    let b = registry_blob(entries, opts.registry, seq);
    let c = filter_blob(SHARED_FILTER_BLOB_TYPE@, keys_of(t.global), opts.filter_bits, seq);
    let d = filter_blob(OVERLAY_FILTER_BLOB_TYPE@, overlay_keys(t.scopes), opts.filter_bits, seq);
    let m = if opts.member_index {
        member_blobs(t, opts, seq)
    } else {
        Seq::empty()
    };
    let all = base_blobs(t, entries, opts, seq);
    assert(all == a + b + c + d + m);
    let e = shared_member_blob(t.global, opts.members, seq);
    let f = overlay_member_blobs(t.scopes, opts.members, seq);
    let g = filter_blob(
        SHARED_MEMBERS_FILTER_BLOB_TYPE@,
        first_columns(member_pairs(t.global)),
        opts.filter_bits,
        seq,
    );
    let h = filter_blob(
        OVERLAY_MEMBERS_FILTER_BLOB_TYPE@,
        overlay_parents(t.scopes),
        opts.filter_bits,
        seq,
    );
    let n = a.len() as int;
    let k = n + b.len() + c.len() + d.len();
    if i < n {
        assert(all[i] == a[i]);
    } else if i < n + b.len() {
        assert(all[i] == b[i - n]);
    } else if i < n + b.len() + c.len() {
        assert(all[i] == c[i - n - b.len()]);
    } else if i < k {
        assert(all[i] == d[i - n - b.len() - c.len()]);
    } else {
        let j = i - k;
        assert(all[i] == m[j]);
        assert(m == e + f + g + h);
        if j < e.len() {
            assert(m[j] == e[j]);
        } else if j < e.len() + f.len() {
            assert(m[j] == f[j - e.len()]);
        } else if j < e.len() + f.len() + g.len() {
            assert(m[j] == g[j - e.len() - f.len()]);
        } else {
            assert(m[j] == h[j - e.len() - f.len() - g.len()]);
        }
    }
}

/// A base written with the option holds its member indexes.
pub proof fn member_blobs_are_there(
    t: SnapshotView,
    entries: Seq<(NodeId, ScopeId)>,
    opts: WriteOptions,
    seq: i64,
    blob: BlobView,
)
    requires
        opts.member_index,
        shared_member_blob(t.global, opts.members, seq).contains(blob) || overlay_member_blobs(
            t.scopes,
            opts.members,
            seq,
        ).contains(blob),
    ensures
        base_blobs(t, entries, opts, seq).contains(blob),
{
    let all = base_blobs(t, entries, opts, seq);
    let m = member_blobs(t, opts, seq);
    let k = all.len() - m.len();
    let e = shared_member_blob(t.global, opts.members, seq);
    let f = overlay_member_blobs(t.scopes, opts.members, seq);
    let j = if e.contains(blob) {
        e.index_of(blob)
    } else {
        e.len() + f.index_of(blob)
    };
    assert(m[j] == blob);
    assert(all[k + j] == m[j]);
}

/// The scope `x` of `scopes` has the member index `blob`.
pub open spec fn is_index_of(
    scopes: Seq<ScopePairs>,
    encoding: MemberEncoding,
    seq: i64,
    x: int,
    blob: BlobView,
) -> bool {
    &&& 0 <= x < scopes.len()
    &&& member_pairs(scopes[x].pairs).len() > 0
    &&& blob == scope_blob(
        members_type(encoding, Tier::Overlay),
        members_bytes(encoding, member_pairs(scopes[x].pairs), BLOCK_BYTES as nat),
        scopes[x].scope,
        seq,
    )
}

/// The member indexes of the overlays are those of the scopes with members.
pub proof fn overlay_member_blobs_are(
    scopes: Seq<ScopePairs>,
    encoding: MemberEncoding,
    seq: i64,
    blob: BlobView,
)
    ensures
        overlay_member_blobs(scopes, encoding, seq).contains(blob) <==> exists|x: int| #[trigger]
            is_index_of(scopes, encoding, seq, x, blob),
    decreases scopes.len(),
{
    let all = overlay_member_blobs(scopes, encoding, seq);
    if scopes.len() > 0 {
        let front = scopes.drop_last();
        let before = overlay_member_blobs(front, encoding, seq);
        let n = scopes.len() - 1;
        overlay_member_blobs_are(front, encoding, seq, blob);
        if all.contains(blob) {
            let j = all.index_of(blob);
            if j < before.len() {
                assert(before[j] == blob);
                assert(before.contains(blob));
                let x = choose|x: int| #[trigger] is_index_of(front, encoding, seq, x, blob);
                assert(is_index_of(scopes, encoding, seq, x, blob));
            } else {
                assert(is_index_of(scopes, encoding, seq, n, blob));
            }
        }
        if exists|x: int| #[trigger] is_index_of(scopes, encoding, seq, x, blob) {
            let x = choose|x: int| #[trigger] is_index_of(scopes, encoding, seq, x, blob);
            if x < n {
                assert(is_index_of(front, encoding, seq, x, blob));
                let j = before.index_of(blob);
                assert(all[j] == blob);
            } else {
                assert(all[before.len() as int] == blob);
            }
        }
    }
}

proof fn overlay_members_sequence(scopes: Seq<ScopePairs>, encoding: MemberEncoding, seq: i64)
    ensures
        forall|i: int|
            0 <= i < overlay_member_blobs(scopes, encoding, seq).len() ==> (
            #[trigger] overlay_member_blobs(scopes, encoding, seq)[i]).sequence_number == seq,
    decreases scopes.len(),
{
    if scopes.len() > 0 {
        let before = overlay_member_blobs(scopes.drop_last(), encoding, seq);
        let all = overlay_member_blobs(scopes, encoding, seq);
        overlay_members_sequence(scopes.drop_last(), encoding, seq);
        assert forall|i: int| 0 <= i < all.len() implies (#[trigger] all[i]).sequence_number
            == seq by {
            if i < before.len() {
                assert(all[i] == before[i]);
            }
        }
    }
}

/// Every blob of a base carries its sequence.
pub proof fn blobs_have_one_sequence(
    t: SnapshotView,
    entries: Seq<(NodeId, ScopeId)>,
    opts: WriteOptions,
    seq: i64,
    i: int,
)
    requires
        0 <= i < base_blobs(t, entries, opts, seq).len(),
    ensures
        base_blobs(t, entries, opts, seq)[i].sequence_number == seq,
{
    overlay_members_sequence(t.scopes, opts.members, seq);
}

/// **A snapshot survives its encoding**: decoding the blobs of a snapshot
/// gives back its pairs sorted by node, scopes ascending.
pub proof fn snapshot_blobs_decode(snap: SnapshotView, opts: WriteOptions, seq: i64)
    requires
        tables_fit(snap),
        scopes_strict(snap.scopes),
    ensures
        decoded_snapshot(
            base_blobs(sorted_tables(snap), snapshot_registry(snap), opts, seq),
        ) == Ok::<SnapshotView, CodecError>(sorted_tables(snap)),
{
    let t = sorted_tables(snap);
    pairs_sorted_sorts(snap.global);
    assert forall|i: int|
        0 <= i < t.scopes.len()
    implies (#[trigger] t.scopes[i]).pairs.len() <= u64::MAX by {
        pairs_sorted_sorts(snap.scopes[i].pairs);
    }
    assert forall|i: int, j: int| 0 <= i < j < t.scopes.len() implies (#[trigger] t.scopes[i]).scope < (
    #[trigger] t.scopes[j]).scope by {
        assert(snap.scopes[i].scope < snap.scopes[j].scope);
    }
    base_blobs_decode(t, snapshot_registry(snap), opts, seq);
}

/// **A member index lists each child below its parent**: the two sides of a pair
/// change places, and a root's own entry is left out.
pub proof fn a_child_is_listed_below_its_parent(
    a: Seq<(NodeId, NodeId)>,
    b: Seq<(NodeId, NodeId)>,
    node: NodeId,
    parent: NodeId,
)
    ensures
        inverted(a + b) == inverted(a) + inverted(b),
        inverted(seq![(node, parent)]) == if node == parent {
            Seq::empty()
        } else {
            seq![(parent, node)]
        },
        member_pairs(a).to_multiset() == inverted(a).to_multiset(),
    decreases b.len(),
{
    let one = seq![(node, parent)];
    assert(one.drop_last() =~= Seq::empty());
    assert(inverted(Seq::empty()) =~= Seq::empty());
    assert(one.last() == (node, parent));
    assert(Seq::<(NodeId, NodeId)>::empty().push((parent, node)) =~= seq![(parent, node)]);
    pairs_sorted_sorts(inverted(a));
    if b.len() == 0 {
        assert(a + b =~= a);
        assert(inverted(a) + inverted(b) =~= inverted(a));
    } else {
        a_child_is_listed_below_its_parent(a, b.drop_last(), node, parent);
        assert((a + b).drop_last() =~= a + b.drop_last());
        assert((a + b).last() == b.last());
        assert(inverted(a + b) =~= inverted(a) + inverted(b));
    }
}

/// **The parents of a table are its first columns**, and nothing else is.
pub proof fn parents_are_first_columns(pairs: Seq<(NodeId, NodeId)>, x: NodeId)
    ensures
        first_columns(pairs).contains(x) <==> exists|i: int|
            0 <= i < pairs.len() && (#[trigger] pairs[i]).0 == x,
    decreases pairs.len(),
{
    if pairs.len() > 0 {
        let front = pairs.drop_last();
        let n = pairs.len() - 1;
        let before = first_columns(front);
        let all = first_columns(pairs);
        parents_are_first_columns(front, x);
        if before.contains(x) {
            let i = choose|i: int| 0 <= i < front.len() && (#[trigger] front[i]).0 == x;
            assert(pairs[i].0 == x);
            let j = before.index_of(x);
            assert(all[j] == x);
        }
        if pairs[n].0 == x {
            if before.len() > 0 && before.last() == x {
                assert(all[before.len() - 1] == x);
            } else {
                assert(all[before.len() as int] == x);
            }
        }
        if all.contains(x) && !before.contains(x) {
            let j = all.index_of(x);
            assert(j == before.len());
            assert(pairs[n].0 == x);
        }
        if exists|i: int| 0 <= i < pairs.len() && (#[trigger] pairs[i]).0 == x {
            let i = choose|i: int| 0 <= i < pairs.len() && (#[trigger] pairs[i]).0 == x;
            if i < n {
                assert(front[i].0 == x);
            }
        }
    }
}

/// **The root of a node is what was recorded of it last.**
pub proof fn the_last_recorded_root_counts(
    a: Seq<(NodeId, NodeId)>,
    b: Seq<(NodeId, NodeId)>,
    root: NodeId,
    x: NodeId,
)
    requires
        forall|i: int| 0 <= i < b.len() ==> (#[trigger] b[i]).0 != x,
    ensures
        live(a.push((x, root)) + b, x) == root,
        live(b, x) == x,
    decreases b.len(),
{
    let all = a.push((x, root)) + b;
    if b.len() == 0 {
        assert(all =~= a.push((x, root)));
    } else {
        let front = b.drop_last();
        assert(b[b.len() - 1].0 != x);
        the_last_recorded_root_counts(a, front, root, x);
        assert(all.drop_last() =~= a.push((x, root)) + front);
        assert(all.last() == b.last());
    }
}

/// **A scope's blob says its scope**, in decimal under its own name, and one that
/// does not, or that names no scope, is refused as such.
pub proof fn a_blob_says_its_scope(
    blob_type: Seq<char>,
    data: Seq<u8>,
    scope: ScopeId,
    seq: i64,
    properties: Seq<(Seq<char>, Seq<char>)>,
)
    ensures
        named_scope(scope_blob(blob_type, data, scope, seq).properties) == Ok::<
            ScopeId,
            CodecError,
        >(scope),
        named_scope(properties) == Err::<ScopeId, CodecError>(CodecError::MissingScope)
            <==> property(properties, "scope-id"@) is None,
        named_scope(properties) matches Ok(s) ==> property(properties, "scope-id"@) is Some
            && parsed(property(properties, "scope-id"@)->Some_0, u32::MAX as nat) == Some(s as nat),
        scope_blob(blob_type, data, scope, seq).data == data,
        scope_blob(blob_type, data, scope, seq).blob_type == blob_type,
        scope_blob(blob_type, data, scope, seq).sequence_number == seq,
        scope_blob(blob_type, data, scope, seq).snapshot_id == seq,
        plain_blob(blob_type, data, seq).data == data,
        plain_blob(blob_type, data, seq).blob_type == blob_type,
        plain_blob(blob_type, data, seq).sequence_number == seq,
        plain_blob(blob_type, data, seq).snapshot_id == seq,
        plain_blob(blob_type, data, seq).properties.len() == 0,
{
    crate::text::decimal_reads_back(scope as nat, u32::MAX as nat);
    let p = scope_blob(blob_type, data, scope, seq).properties;
    assert(p[0] == (SCOPE_ID_PROP@, decimal(scope as nat)));
}

/// **Decoding keeps the tables apart and the scopes in order**: the shared table
/// is that of the last such blob, a scope's blob adds its table, and blobs of any
/// other type change nothing.
pub proof fn decoding_takes_each_table(
    blobs: Seq<BlobView>,
    blob: BlobView,
    pairs: Seq<(NodeId, NodeId)>,
    scope: ScopeId,
)
    requires
        decoded_snapshot(blobs) is Ok,
    ensures
        ({
            let before = decoded_snapshot(blobs)->Ok_0;
            let after = decoded_snapshot(blobs.push(blob));
            &&& blob.blob_type == GLOBAL_BLOB_TYPE@ && decoded_pairs(blob.data) == Ok::<
                Seq<(NodeId, NodeId)>,
                CodecError,
            >(pairs) ==> after is Ok && after->Ok_0.global == pairs && after->Ok_0.scopes
                == before.scopes
            &&& blob.blob_type == SCOPE_BLOB_TYPE@ && blob.blob_type != GLOBAL_BLOB_TYPE@
                && decoded_pairs(blob.data) == Ok::<Seq<(NodeId, NodeId)>, CodecError>(pairs)
                && named_scope(blob.properties) == Ok::<ScopeId, CodecError>(scope) ==> after is Ok
                && after->Ok_0.global == before.global && after->Ok_0.scopes.to_multiset()
                == before.scopes.to_multiset().insert(ScopePairs { scope, pairs })
            &&& blob.blob_type != SCOPE_BLOB_TYPE@ && blob.blob_type != GLOBAL_BLOB_TYPE@
                ==> after is Ok && after->Ok_0 == before
        }),
{
    assert(blobs.push(blob).drop_last() =~= blobs);
    let before = decoded_snapshot(blobs)->Ok_0;
    placing_a_scope_keeps_all(before.scopes, ScopePairs { scope, pairs });
}

proof fn placing_a_scope_keeps_all(scopes: Seq<ScopePairs>, s: ScopePairs)
    ensures
        scope_placed(scopes, s).to_multiset() == scopes.to_multiset().insert(s),
    decreases scopes.len(),
{
    broadcast use vstd::seq_lib::group_to_multiset_ensures;

    if scopes.len() > 0 && scopes.last().scope > s.scope {
        placing_a_scope_keeps_all(scopes.drop_last(), s);
        assert(scopes =~= scopes.drop_last().push(scopes.last()));
        assert(scope_placed(scopes, s).to_multiset() =~= scopes.to_multiset().insert(s));
    }
}

/// **The scopes of a decoded snapshot ascend.**
pub proof fn decoded_scopes_ascend(blobs: Seq<BlobView>, i: int, j: int)
    requires
        decoded_snapshot(blobs) is Ok,
        0 <= i <= j < decoded_snapshot(blobs)->Ok_0.scopes.len(),
    ensures
        decoded_snapshot(blobs)->Ok_0.scopes[i].scope <= decoded_snapshot(
            blobs,
        )->Ok_0.scopes[j].scope,
{
    decoded_in_order(blobs);
}

spec fn scopes_in_line(scopes: Seq<ScopePairs>) -> bool {
    forall|i: int, j: int|
        0 <= i <= j < scopes.len() ==> (#[trigger] scopes[i]).scope <= (#[trigger] scopes[j]).scope
}

proof fn decoded_in_order(blobs: Seq<BlobView>)
    ensures
        decoded_snapshot(blobs) matches Ok(snap) ==> scopes_in_line(snap.scopes),
    decreases blobs.len(),
{
    if blobs.len() > 0 {
        decoded_in_order(blobs.drop_last());
        if let Ok(snap) = decoded_snapshot(blobs.drop_last()) {
            let blob = blobs.last();
            if let Ok(scope) = named_scope(blob.properties) {
                if let Ok(pairs) = decoded_pairs(blob.data) {
                    placing_a_scope_sorts(snap.scopes, ScopePairs { scope, pairs });
                }
            }
        }
    }
}

proof fn placing_a_scope_sorts(scopes: Seq<ScopePairs>, s: ScopePairs)
    requires
        scopes_in_line(scopes),
    ensures
        scopes_in_line(scope_placed(scopes, s)),
        scope_placed(scopes, s).len() == scopes.len() + 1,
        scope_placed(scopes, s).last().scope == if scopes.len() > 0 && scopes.last().scope
            > s.scope {
            scopes.last().scope
        } else {
            s.scope
        },
    decreases scopes.len(),
{
    let out = scope_placed(scopes, s);
    if scopes.len() > 0 && scopes.last().scope > s.scope {
        let front = scopes.drop_last();
        placing_a_scope_sorts(front, s);
        let before = scope_placed(front, s);
        if front.len() > 0 {
            assert(scopes[front.len() - 1].scope <= scopes[front.len() as int].scope);
        }
        assert forall|i: int, j: int| 0 <= i <= j < out.len() implies (#[trigger] out[i]).scope <= (
        #[trigger] out[j]).scope by {
            if i < before.len() {
                assert(before[i].scope <= before[before.len() - 1].scope);
            }
        }
    } else {
        assert forall|i: int, j: int| 0 <= i <= j < out.len() implies (#[trigger] out[i]).scope <= (
        #[trigger] out[j]).scope by {
            if i < scopes.len() {
                assert(scopes[i].scope <= scopes[scopes.len() - 1].scope);
            }
        }
    }
}

/// **A table that was encoded decodes to its pairs, in ascending order.**
pub proof fn an_encoded_table_decodes(
    pairs: Vec<(NodeId, NodeId)>,
    b: bytes::Bytes,
    data: &[u8],
    r: Result<Vec<(NodeId, NodeId)>, TableError>,
)
    requires
        call_ensures(encode_pairs, (&pairs,), b),
        data@ == payload_content(b),
        call_ensures(decode_pairs, (data,), r),
    ensures
        r matches Ok(v) && v@.to_multiset() == pairs@.to_multiset() && v@ == pairs_sorted(pairs@),
{
    broadcast use vstd::seq_lib::group_to_multiset_ensures;

    let s = pairs_sorted(pairs@);
    pairs_sorted_sorts(pairs@);
    assert(pairs@.len() == pairs.len());
    assert(s.len() == s.to_multiset().len() && pairs@.len() == pairs@.to_multiset().len());
    assert(data@.subrange(0, data@.len() as int) =~= data@);
    assert(holds_at(data@, 0, table_bytes(s)));
    table_reads_back(data@, 0, s);
}

} // verus!
