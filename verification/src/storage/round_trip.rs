//! What is written is what is served: a base opened from the file of a forest
//! holds the forest's resolved pairs and registry.

use vstd::prelude::*;

use super::base::{
    lower_bound, open_error, open_step, opened, scope_run, searched, table_at, table_links,
    table_of, BaseError, Opened, PairTable, PuffinBase, RegistryAt, RegistryIndex,
};
use super::blocks::{holds_at, holds_parts};
use super::codec::{
    base_blobs, collected_tables, entry_at, named_scope, registry_blob, scope_blob, scopes_strict,
    table_blobs, WriteOptions, GLOBAL_BLOB_TYPE, SCOPE_BLOB_TYPE, SCOPE_ID_PROP, CodecError,
};
use super::packing::{index_bytes, index_fits};
use super::puffin::{
    blob_at, data_bytes, file_bytes, file_reads_back, out_of_bounds, placed, range_error, BlobView,
    MetaView,
};
use super::registry::{
    blocked_registry_reads_back, flat_bytes, registry_ascends, registry_le, scopes_with,
    stride_bytes, stride_bytes_len, widened, widened_ascends, RegistryEncoding, BLOCK_BYTES,
};
use super::sorted::{registry_listing, registry_listing_lists, registry_strict};
use super::table::{pair_bytes_len, table_bytes, table_error, table_reads_back};
use super::wire::{le32, le64, le_len, u32_at, u32_reads_back, u64_at, u64_reads_back};
use crate::graph::base::{ascending, lists, valid_base, RoutingBase};
use crate::graph::scoped::{lists_scope, ScopedForest};
use crate::graph::sink::registry_events;
use crate::graph::snapshot::{ScopePairs, SnapshotView};
use crate::graph::types::{NodeId, ScopeId};
use crate::text::{decimal, decimal_reads_back};

verus! {

// --- searching sorted tables -----------------------------------------------------------------

proof fn search_finds(pairs: Seq<(NodeId, NodeId)>, lo: int, hi: int, node: NodeId)
    requires
        ascending(pairs),
        0 <= lo <= hi <= pairs.len(),
    ensures
        forall|i: int| lo <= i < hi && (#[trigger] pairs[i]).0 == node ==> searched(pairs, lo, hi, node) == Some(pairs[i].1),
        searched(pairs, lo, hi, node) matches Some(v) ==> exists|i: int| lo <= i < hi && #[trigger] pairs[i] == (node, v),
    decreases hi - lo,
{
    if lo < hi {
        let mid = lo + (hi - lo) / 2;
        if pairs[mid].0 == node {
            assert forall|i: int|
                lo <= i < hi && (#[trigger] pairs[i]).0 == node
            implies i == mid by {
                if i < mid {
                    assert(pairs[i].0 < pairs[mid].0);
                } else if i > mid {
                    assert(pairs[mid].0 < pairs[i].0);
                }
            }
            assert(pairs[mid] == (node, pairs[mid].1));
        } else if pairs[mid].0 < node {
            search_finds(pairs, mid + 1, hi, node);
            assert forall|i: int|
                lo <= i < hi && (#[trigger] pairs[i]).0 == node
            implies i > mid by {
                if i < mid {
                    assert(pairs[i].0 < pairs[mid].0);
                }
            }
        } else {
            search_finds(pairs, lo, mid, node);
            assert forall|i: int|
                lo <= i < hi && (#[trigger] pairs[i]).0 == node
            implies i < mid by {
                if i > mid {
                    assert(pairs[mid].0 < pairs[i].0);
                }
            }
        }
    }
}

/// **Lookups in a sorted table answer what it lists.**
pub proof fn sorted_tables_answer(pairs: Seq<(NodeId, NodeId)>)
    requires
        ascending(pairs),
    ensures
        lists(pairs, table_links(pairs)),
{
    let links = table_links(pairs);
    let n = pairs.len() as int;
    assert forall|i: int| 0 <= i < n implies links.contains_key((#[trigger] pairs[i]).0)
        && links[pairs[i].0] == pairs[i].1 by {
        search_finds(pairs, 0, n, pairs[i].0);
    }
    assert forall|k: NodeId| #[trigger] links.contains_key(k) implies exists|i: int|
        0 <= i < n && (#[trigger] pairs[i]).0 == k by {
        search_finds(pairs, 0, n, k);
        let v = searched(pairs, 0, n, k)->0;
        let i = choose|i: int| 0 <= i < n && #[trigger] pairs[i] == (k, v);
        assert(pairs[i].0 == k);
    }
}

/// Two maps that the same list lists are the same.
pub proof fn listed_links_agree(
    pairs: Seq<(NodeId, NodeId)>,
    a: Map<NodeId, NodeId>,
    b: Map<NodeId, NodeId>,
)
    requires
        lists(pairs, a),
        lists(pairs, b),
    ensures
        a == b,
{
    assert forall|k: NodeId| a.contains_key(k) == b.contains_key(k) && (a.contains_key(k) ==> a[k] == b[k]) by {
        if a.contains_key(k) {
            let i = choose|i: int| 0 <= i < pairs.len() && (#[trigger] pairs[i]).0 == k;
            assert(b.contains_key(pairs[i].0));
        }
        if b.contains_key(k) {
            let i = choose|i: int| 0 <= i < pairs.len() && (#[trigger] pairs[i]).0 == k;
            assert(a.contains_key(pairs[i].0));
        }
    }
    assert(a =~= b);
}

proof fn lower_bound_is(entries: Seq<(NodeId, ScopeId)>, lo: int, hi: int, root: NodeId)
    requires
        registry_ascends(entries),
        0 <= lo <= hi <= entries.len(),
        forall|i: int| 0 <= i < lo ==> (#[trigger] entries[i]).0 < root,
        forall|i: int| hi <= i < entries.len() ==> (#[trigger] entries[i]).0 >= root,
    ensures
        ({
            let n = lower_bound(entries, lo, hi, root);
            &&& lo <= n <= hi
            &&& forall|i: int| 0 <= i < n ==> (#[trigger] entries[i]).0 < root
            &&& forall|i: int| n <= i < entries.len() ==> (#[trigger] entries[i]).0 >= root
        }),
    decreases hi - lo,
{
    if lo < hi {
        let mid = lo + (hi - lo) / 2;
        if entries[mid].0 < root {
            assert forall|i: int| 0 <= i < mid + 1 implies (#[trigger] entries[i]).0 < root by {
                if i < mid {
                    assert(registry_le(entries[i], entries[mid]));
                }
            }
            lower_bound_is(entries, mid + 1, hi, root);
        } else {
            assert forall|i: int|
                mid <= i < entries.len()
            implies (#[trigger] entries[i]).0 >= root by {
                if mid < i {
                    assert(registry_le(entries[mid], entries[i]));
                }
            }
            lower_bound_is(entries, lo, mid, root);
        }
    }
}

proof fn scopes_with_join(a: Seq<(NodeId, ScopeId)>, b: Seq<(NodeId, ScopeId)>, root: NodeId)
    ensures
        scopes_with(a + b, root) == scopes_with(a, root) + scopes_with(b, root),
    decreases b.len(),
{
    if b.len() == 0 {
        assert(a + b =~= a);
        assert(scopes_with(a, root) + scopes_with(b, root) =~= scopes_with(a, root));
    } else {
        assert((a + b).drop_last() =~= a + b.drop_last());
        assert((a + b).last() == b.last());
        scopes_with_join(a, b.drop_last(), root);
        assert(scopes_with(a + b, root) =~= scopes_with(a, root) + scopes_with(b, root));
    }
}

proof fn no_scopes_with(entries: Seq<(NodeId, ScopeId)>, root: NodeId)
    requires
        forall|i: int| 0 <= i < entries.len() ==> (#[trigger] entries[i]).0 != root,
    ensures
        scopes_with(entries, root) == Seq::<ScopeId>::empty(),
    decreases entries.len(),
{
    if entries.len() > 0 {
        let front = entries.drop_last();
        assert forall|i: int| 0 <= i < front.len() implies (#[trigger] front[i]).0 != root by {
            assert(entries[i].0 != root);
        }
        assert(entries[entries.len() - 1].0 != root);
        no_scopes_with(front, root);
    }
}

proof fn run_is_the_rest(entries: Seq<(NodeId, ScopeId)>, i: int, root: NodeId)
    requires
        registry_ascends(entries),
        0 <= i <= entries.len(),
        forall|j: int| i <= j < entries.len() ==> (#[trigger] entries[j]).0 >= root,
    ensures
        scope_run(entries, i, root) == scopes_with(entries.skip(i), root),
    decreases entries.len() - i,
{
    let rest = entries.skip(i);
    if i < entries.len() {
        let one = seq![entries[i]];
        assert(rest =~= one + entries.skip(i + 1));
        scopes_with_join(one, entries.skip(i + 1), root);
        if entries[i].0 == root {
            run_is_the_rest(entries, i + 1, root);
            assert(one.drop_last() =~= Seq::empty());
            assert(scopes_with(one.drop_last(), root) =~= Seq::empty());
            assert(scopes_with(one, root) =~= seq![entries[i].1]);
        } else {
            assert forall|j: int| 0 <= j < rest.len() implies (#[trigger] rest[j]).0 != root by {
                if j > 0 {
                    assert(registry_le(entries[i], entries[i + j]));
                }
            }
            no_scopes_with(rest, root);
        }
    } else {
        assert(rest =~= Seq::empty());
    }
}

/// **Lookups in a sorted registry answer what it lists.**
pub proof fn sorted_registries_answer(entries: Seq<(NodeId, ScopeId)>, root: NodeId)
    requires
        registry_ascends(entries),
    ensures
        scope_run(entries, lower_bound(entries, 0, entries.len() as int, root), root)
            == scopes_with(entries, root),
{
    lower_bound_is(entries, 0, entries.len() as int, root);
    let n = lower_bound(entries, 0, entries.len() as int, root);
    run_is_the_rest(entries, n, root);
    assert(entries =~= entries.take(n) + entries.skip(n));
    scopes_with_join(entries.take(n), entries.skip(n), root);
    let low = entries.take(n);
    assert forall|i: int| 0 <= i < low.len() implies (#[trigger] low[i]).0 != root by {
        assert(entries[i].0 < root);
    }
    no_scopes_with(low, root);
    assert(scopes_with(entries, root) =~= scopes_with(entries.skip(n), root));
}

/// A scope is listed for a root where an entry says so.
pub proof fn scopes_with_lists(entries: Seq<(NodeId, ScopeId)>, root: NodeId, scope: ScopeId)
    ensures
        scopes_with(entries, root).contains(scope) <==> entries.contains((root, scope)),
    decreases entries.len(),
{
    let all = scopes_with(entries, root);
    if entries.len() > 0 {
        let front = entries.drop_last();
        let before = scopes_with(front, root);
        scopes_with_lists(front, root, scope);
        if entries.contains((root, scope)) {
            let i = entries.index_of((root, scope));
            if i < front.len() {
                assert(front[i] == (root, scope));
                assert(front.contains((root, scope)));
                let j = before.index_of(scope);
                assert(all[j] == scope);
            } else {
                assert(all[all.len() - 1] == scope);
            }
        }
        if all.contains(scope) {
            let j = all.index_of(scope);
            if j < before.len() {
                assert(before[j] == scope);
                assert(before.contains(scope));
                let i = front.index_of((root, scope));
                assert(entries[i] == (root, scope));
            } else {
                assert(entries[entries.len() - 1] == (root, scope));
            }
        }
    }
}

// --- flat registries ----------------------------------------------------------------------------

proof fn stride_is_there(data: Seq<u8>, at: int, entries: Seq<(NodeId, ScopeId)>, i: int)
    requires
        holds_at(data, at, stride_bytes(entries)),
        0 <= i < entries.len(),
    ensures
        u64_at(data, at + 12 * i) == entries[i].0,
        u32_at(data, at + 12 * i + 8) == entries[i].1,
    decreases entries.len(),
{
    let front = entries.drop_last();
    let (a, b) = entries.last();
    stride_bytes_len(front);
    le_len(a as nat, 8);
    le_len(b as nat, 4);
    holds_parts(data, at, stride_bytes(front), le64(a) + le32(b));
    if i == entries.len() - 1 {
        holds_parts(data, at + 12 * i, le64(a), le32(b));
        u64_reads_back(data, at + 12 * i, a);
        u32_reads_back(data, at + 12 * i + 8, b);
    } else {
        stride_is_there(data, at, front, i);
    }
}

/// **A written flat registry reads back.**
pub proof fn flat_registry_reads_back(data: Seq<u8>, start: int, entries: Seq<(NodeId, ScopeId)>)
    requires
        holds_at(data, start, flat_bytes(entries)),
        entries.len() <= u64::MAX,
    ensures
        flat_bytes(entries).len() == 8 + 12 * entries.len(),
        u64_at(data, start) == entries.len(),
        table_error(data, start, start + flat_bytes(entries).len(), 12) is None,
        Seq::new(entries.len(), |i: int| entry_at(data, start, i)) == entries,
{
    let head = le64(entries.len() as u64);
    le_len(entries.len() as u64 as nat, 8);
    stride_bytes_len(entries);
    holds_parts(data, start, head, stride_bytes(entries));
    u64_reads_back(data, start, entries.len() as u64);
    let got = Seq::new(entries.len(), |i: int| entry_at(data, start, i));
    assert forall|i: int| 0 <= i < entries.len() implies #[trigger] got[i] == entries[i] by {
        stride_is_there(data, start + 8, entries, i);
    }
    assert(got =~= entries);
}

// --- opening a written file ----------------------------------------------------------------------

/// What the footer of a file of `blobs` says.
pub open spec fn metas_of(blobs: Seq<BlobView>) -> Seq<MetaView> {
    Seq::new(blobs.len(), |i: int| placed(blobs, i))
}

/// The pairs that `scopes` has for `scope`.
pub open spec fn pairs_for(scopes: Seq<ScopePairs>, scope: ScopeId) -> Seq<(NodeId, NodeId)>
    decreases scopes.len(),
{
    if scopes.len() == 0 {
        Seq::empty()
    } else if scopes.last().scope == scope {
        scopes.last().pairs
    } else {
        pairs_for(scopes.drop_last(), scope)
    }
}

/// `file` is a file of a base with the tables `t` and the registry `entries`.
pub open spec fn file_of(
    file: Seq<u8>,
    t: SnapshotView,
    entries: Seq<(NodeId, ScopeId)>,
    opts: WriteOptions,
    seq: i64,
    footer: Seq<u8>,
) -> bool {
    &&& file == file_bytes(base_blobs(t, entries, opts, seq), footer)
    &&& footer.len() <= u32::MAX
    &&& file.len() <= usize::MAX
    &&& entries.len() <= usize::MAX
}

/// Where blob `i` starts.
pub open spec fn offset_of(blobs: Seq<BlobView>, i: int) -> int {
    4 + data_bytes(blobs.take(i)).len() as int
}

/// Where blob `i` is, as a table of `pairs`.
pub open spec fn table_there(blobs: Seq<BlobView>, i: int, pairs: Seq<(NodeId, NodeId)>) -> PairTable {
    PairTable { at: offset_of(blobs, i) as usize, count: pairs.len() as usize }
}

/// A written blob lies where its footer entry says.
pub proof fn blob_is_there(file: Seq<u8>, blobs: Seq<BlobView>, footer: Seq<u8>, i: int)
    requires
        file == file_bytes(blobs, footer),
        footer.len() <= u32::MAX,
        file.len() <= usize::MAX,
        0 <= i < blobs.len(),
    ensures
        holds_at(file, offset_of(blobs, i), blobs[i].data),
        placed(blobs, i).offset == offset_of(blobs, i),
        placed(blobs, i).length == blobs[i].data.len(),
        offset_of(blobs, i) + blobs[i].data.len() <= file.len(),
        !out_of_bounds(placed(blobs, i), file.len()),
{
    file_reads_back(blobs, footer);
    let m = placed(blobs, i);
    assert(!out_of_bounds(m, file.len()) && blob_at(file, m) == blobs[i]);
    data_fits(file, blobs, footer, i);
    assert(file.subrange(m.offset as int, m.offset + m.length) == blobs[i].data);
}

proof fn data_fits(file: Seq<u8>, blobs: Seq<BlobView>, footer: Seq<u8>, i: int)
    requires
        file == file_bytes(blobs, footer),
        file.len() <= usize::MAX,
        0 <= i < blobs.len(),
    ensures
        offset_of(blobs, i) + blobs[i].data.len() <= u64::MAX,
{
    front_is_shorter(blobs, i);
}

proof fn front_is_shorter(blobs: Seq<BlobView>, i: int)
    requires
        0 <= i < blobs.len(),
    ensures
        data_bytes(blobs.take(i)).len() + blobs[i].data.len() <= data_bytes(blobs).len(),
    decreases blobs.len(),
{
    if i == blobs.len() - 1 {
        assert(blobs.take(i) =~= blobs.drop_last());
    } else {
        front_is_shorter(blobs.drop_last(), i);
        assert(blobs.drop_last().take(i) =~= blobs.take(i));
    }
}

proof fn no_range_error(metas: Seq<MetaView>, len: nat)
    requires
        forall|i: int| 0 <= i < metas.len() ==> !out_of_bounds(#[trigger] metas[i], len),
    ensures
        range_error(metas, len) is None,
    decreases metas.len(),
{
    if metas.len() > 0 {
        let front = metas.drop_last();
        assert forall|i: int|
            0 <= i < front.len()
        implies !out_of_bounds(#[trigger] front[i], len) by {
            assert(!out_of_bounds(metas[i], len));
        }
        assert(!out_of_bounds(metas[metas.len() - 1], len));
        no_range_error(front, len);
    }
}

/// A table blob opens as its table.
pub proof fn table_opens(
    file: Seq<u8>,
    blobs: Seq<BlobView>,
    footer: Seq<u8>,
    i: int,
    pairs: Seq<(NodeId, NodeId)>,
)
    requires
        file == file_bytes(blobs, footer),
        footer.len() <= u32::MAX,
        file.len() <= usize::MAX,
        0 <= i < blobs.len(),
        blobs[i].data == table_bytes(pairs),
    ensures
        table_at(file, placed(blobs, i), 16) == Ok::<PairTable, super::table::TableError>(
            table_there(blobs, i, pairs),
        ),
        table_there(blobs, i, pairs).pairs(file) == pairs,
        table_there(blobs, i, pairs).count == pairs.len(),
        table_there(blobs, i, pairs).at == offset_of(blobs, i),
{
    blob_is_there(file, blobs, footer, i);
    pair_bytes_len(pairs);
    le_len(pairs.len() as u64 as nat, 8);
    table_reads_back(file, offset_of(blobs, i), pairs);
}

/// The overlays' tables after the first `n` scopes.
spec fn overlays_there(blobs: Seq<BlobView>, scopes: Seq<ScopePairs>, n: nat) -> Map<
    ScopeId,
    PairTable,
>
    decreases n,
{
    if n == 0 {
        Map::empty()
    } else {
        overlays_there(blobs, scopes, (n - 1) as nat).insert(
            scopes[n - 1].scope,
            table_there(blobs, n as int, scopes[n - 1].pairs),
        )
    }
}

spec fn registry_there(
    blobs: Seq<BlobView>,
    n: int,
    entries: Seq<(NodeId, ScopeId)>,
    encoding: RegistryEncoding,
) -> Option<RegistryAt> {
    if entries.len() == 0 {
        None
    } else {
        match encoding {
            RegistryEncoding::Flat => Some(
                RegistryAt::Flat(
                    PairTable { at: offset_of(blobs, n) as usize, count: entries.len() as usize },
                ),
            ),
            RegistryEncoding::Blocked => Some(RegistryAt::Blocked(offset_of(blobs, n))),
        }
    }
}

/// What is open after the first `k` blobs.
spec fn opened_after(
    t: SnapshotView,
    entries: Seq<(NodeId, ScopeId)>,
    opts: WriteOptions,
    seq: i64,
    k: int,
) -> Opened {
    let blobs = base_blobs(t, entries, opts, seq);
    let n = t.scopes.len() as int;
    Opened {
        shared: if k >= 1 {
            Some(table_there(blobs, 0, t.global))
        } else {
            None
        },
        overlays: if k >= 1 {
            overlays_there(
                blobs,
                t.scopes,
                (if k - 1 <= n {
                    k - 1
                } else {
                    n
                }) as nat,
            )
        } else {
            Map::empty()
        },
        registry: if k > n + 1 {
            registry_there(blobs, n + 1, entries, opts.registry)
        } else {
            None
        },
        sequence: if k >= 1 && seq > 0 {
            seq as u64
        } else {
            0
        },
    }
}

proof fn registry_fits(
    file: Seq<u8>,
    blobs: Seq<BlobView>,
    footer: Seq<u8>,
    i: int,
    entries: Seq<(NodeId, ScopeId)>,
)
    requires
        file == file_bytes(blobs, footer),
        footer.len() <= u32::MAX,
        file.len() <= usize::MAX,
        entries.len() <= usize::MAX,
        registry_ascends(entries),
        0 <= i < blobs.len(),
        blobs[i].data == index_bytes(widened(entries), BLOCK_BYTES as nat),
    ensures
        index_fits(widened(entries), BLOCK_BYTES as nat),
{
    widened_ascends(entries);
    blob_is_there(file, blobs, footer, i);
}

/// One more blob opened.
spec fn opens_next(
    file: Seq<u8>,
    t: SnapshotView,
    entries: Seq<(NodeId, ScopeId)>,
    opts: WriteOptions,
    seq: i64,
    i: int,
) -> bool {
    open_step(
        file,
        opened_after(t, entries, opts, seq, i),
        placed(base_blobs(t, entries, opts, seq), i),
    ) == Ok::<Opened, BaseError>(opened_after(t, entries, opts, seq, i + 1))
}

proof fn table_blobs_first(
    t: SnapshotView,
    entries: Seq<(NodeId, ScopeId)>,
    opts: WriteOptions,
    seq: i64,
    i: int,
)
    requires
        0 <= i <= t.scopes.len(),
    ensures
        base_blobs(t, entries, opts, seq).len() > t.scopes.len(),
        base_blobs(t, entries, opts, seq)[i] == table_blobs(t, seq)[i],
{
}

proof fn shared_opens(
    file: Seq<u8>,
    t: SnapshotView,
    entries: Seq<(NodeId, ScopeId)>,
    opts: WriteOptions,
    seq: i64,
    footer: Seq<u8>,
)
    requires
        file_of(file, t, entries, opts, seq, footer),
    ensures
        opens_next(file, t, entries, opts, seq, 0),
{
    let blobs = base_blobs(t, entries, opts, seq);
    table_blobs_first(t, entries, opts, seq, 0);
    table_opens(file, blobs, footer, 0, t.global);
    assert(opened_after(t, entries, opts, seq, 0).overlays =~= overlays_there(blobs, t.scopes, 0));
}

proof fn scope_opens(
    file: Seq<u8>,
    t: SnapshotView,
    entries: Seq<(NodeId, ScopeId)>,
    opts: WriteOptions,
    seq: i64,
    footer: Seq<u8>,
    i: int,
)
    requires
        file_of(file, t, entries, opts, seq, footer),
        1 <= i <= t.scopes.len(),
    ensures
        opens_next(file, t, entries, opts, seq, i),
{
    let blobs = base_blobs(t, entries, opts, seq);
    table_blobs_first(t, entries, opts, seq, i);
    super::codec::other_types(opts);
    let s = t.scopes[i - 1];
    let m = placed(blobs, i);
    assert(blobs[i] == scope_blob(SCOPE_BLOB_TYPE@, table_bytes(s.pairs), s.scope, seq));
    table_opens(file, blobs, footer, i, s.pairs);
    assert(m.properties[0] == (SCOPE_ID_PROP@, decimal(s.scope as nat)));
    decimal_reads_back(s.scope as nat, u32::MAX as nat);
    assert(named_scope(m.properties) == Ok::<ScopeId, CodecError>(s.scope));
    let before = opened_after(t, entries, opts, seq, i);
    let after = opened_after(t, entries, opts, seq, i + 1);
    assert(after.overlays == before.overlays.insert(s.scope, table_there(blobs, i, s.pairs)));
}

proof fn registry_opens(
    file: Seq<u8>,
    t: SnapshotView,
    entries: Seq<(NodeId, ScopeId)>,
    opts: WriteOptions,
    seq: i64,
    footer: Seq<u8>,
)
    requires
        file_of(file, t, entries, opts, seq, footer),
        registry_strict(entries),
        entries.len() > 0,
    ensures
        opens_next(file, t, entries, opts, seq, t.scopes.len() as int + 1),
{
    let blobs = base_blobs(t, entries, opts, seq);
    let i = t.scopes.len() + 1;
    super::codec::other_types(opts);
    assert(blobs[i as int] == registry_blob(entries, opts.registry, seq)[0]);
    blob_is_there(file, blobs, footer, i as int);
    match opts.registry {
        RegistryEncoding::Flat => {
            flat_registry_reads_back(file, offset_of(blobs, i as int), entries);
        },
        RegistryEncoding::Blocked => {
            strict_ascends(entries);
            registry_fits(file, blobs, footer, i as int, entries);
            blocked_registry_reads_back(
                entries,
                BLOCK_BYTES as nat,
                file,
                offset_of(blobs, i as int),
            );
        },
    }
}

proof fn other_opens(
    file: Seq<u8>,
    t: SnapshotView,
    entries: Seq<(NodeId, ScopeId)>,
    opts: WriteOptions,
    seq: i64,
    i: int,
)
    requires
        t.scopes.len() + registry_blob(entries, opts.registry, seq).len() < i < base_blobs(
            t,
            entries,
            opts,
            seq,
        ).len(),
    ensures
        opens_next(file, t, entries, opts, seq, i),
{
    let blobs = base_blobs(t, entries, opts, seq);
    super::codec::index_blobs_are_no_tables(t, entries, opts, seq);
    assert(blobs[i].blob_type != GLOBAL_BLOB_TYPE@ && blobs[i].blob_type != SCOPE_BLOB_TYPE@);
    assert(!super::codec::is_registry_type(blobs[i].blob_type));
    super::codec::blobs_have_one_sequence(t, entries, opts, seq, i);
}

proof fn all_open_upto(
    file: Seq<u8>,
    t: SnapshotView,
    entries: Seq<(NodeId, ScopeId)>,
    opts: WriteOptions,
    seq: i64,
    footer: Seq<u8>,
    k: int,
)
    requires
        file_of(file, t, entries, opts, seq, footer),
        registry_strict(entries),
        0 <= k <= base_blobs(t, entries, opts, seq).len(),
    ensures
        opened(file, metas_of(base_blobs(t, entries, opts, seq)).take(k)) == Ok::<
            Opened,
            BaseError,
        >(opened_after(t, entries, opts, seq, k)),
    decreases k,
{
    let metas = metas_of(base_blobs(t, entries, opts, seq));
    let n = t.scopes.len() as int;
    if k > 0 {
        let i = k - 1;
        all_open_upto(file, t, entries, opts, seq, footer, i);
        assert(metas.take(k).drop_last() =~= metas.take(i));
        assert(metas.take(k).last() == metas[i]);
        if i == 0 {
            shared_opens(file, t, entries, opts, seq, footer);
        } else if i <= n {
            scope_opens(file, t, entries, opts, seq, footer, i);
        } else if i == n + 1 && entries.len() > 0 {
            registry_opens(file, t, entries, opts, seq, footer);
        } else {
            other_opens(file, t, entries, opts, seq, i);
        }
        assert(opens_next(file, t, entries, opts, seq, i));
    } else {
        assert(metas.take(0) =~= Seq::empty());
        assert(opened_after(t, entries, opts, seq, 0).overlays =~= Map::empty());
    }
}

pub proof fn strict_ascends(entries: Seq<(NodeId, ScopeId)>)
    requires
        registry_strict(entries),
    ensures
        registry_ascends(entries),
{
    assert forall|i: int, j: int| 0 <= i < j < entries.len() implies registry_le(
        #[trigger] entries[i],
        #[trigger] entries[j],
    ) by {
        assert(registry_le(entries[i], entries[j]) && entries[i] != entries[j]);
    }
}

/// The overlays' tables hold the scopes' pairs.
proof fn overlays_hold(
    file: Seq<u8>,
    t: SnapshotView,
    entries: Seq<(NodeId, ScopeId)>,
    opts: WriteOptions,
    seq: i64,
    footer: Seq<u8>,
    n: nat,
    s: ScopeId,
)
    requires
        file_of(file, t, entries, opts, seq, footer),
        n <= t.scopes.len(),
    ensures
        ({
            let o = overlays_there(base_blobs(t, entries, opts, seq), t.scopes, n);
            let scopes = t.scopes.take(n as int);
            &&& o.contains_key(s) <==> lists_scope(scopes, s)
            &&& o.contains_key(s) ==> o[s].pairs(file) == pairs_for(scopes, s)
            &&& !o.contains_key(s) ==> pairs_for(scopes, s) == Seq::<(NodeId, NodeId)>::empty()
        }),
    decreases n,
{
    let blobs = base_blobs(t, entries, opts, seq);
    let scopes = t.scopes.take(n as int);
    if n > 0 {
        let front = t.scopes.take(n - 1);
        overlays_hold(file, t, entries, opts, seq, footer, (n - 1) as nat, s);
        assert(scopes.drop_last() =~= front);
        let last = t.scopes[n - 1];
        assert(scopes.last() == last);
        let tables = table_blobs(t, seq);
        assert(blobs[n as int] == tables[n as int]);
        table_opens(file, blobs, footer, n as int, last.pairs);
        if lists_scope(front, s) {
            let i = choose|i: int| 0 <= i < front.len() && (#[trigger] front[i]).scope == s;
            assert(scopes[i].scope == s);
        }
        if lists_scope(scopes, s) && last.scope != s {
            let i = choose|i: int| 0 <= i < scopes.len() && (#[trigger] scopes[i]).scope == s;
            assert(front[i].scope == s);
        }
        if last.scope == s {
            assert(scopes[n - 1].scope == s);
        }
    }
}

/// `b` serves the tables `t` and the registry `entries`.
pub open spec fn serves_tables(
    b: &PuffinBase,
    t: SnapshotView,
    entries: Seq<(NodeId, ScopeId)>,
    seq: i64,
) -> bool {
    &&& b.shared_pairs() == t.global
    &&& forall|s: ScopeId| #[trigger] b.overlay_pairs(s) == pairs_for(t.scopes, s)
    &&& forall|s: ScopeId| b.scope_list().contains(s) <==> #[trigger] lists_scope(t.scopes, s)
    &&& b.registry_entries() == entries
    &&& forall|root: NodeId, s: ScopeId|
        (#[trigger] b.registered(root).contains(s)) <==> entries.contains((root, s))
    &&& b.seq() == if seq > 0 {
        seq as u64
    } else {
        0
    }
}

/// **A written base is served as it was written**: opening the file gives back
/// the tables, the registry and the sequence, whichever encoding the registry
/// has and whatever else the file carries.
pub proof fn written_base_is_served(
    b: &PuffinBase,
    t: SnapshotView,
    entries: Seq<(NodeId, ScopeId)>,
    opts: WriteOptions,
    seq: i64,
    footer: Seq<u8>,
)
    requires
        file_of(b.content(), t, entries, opts, seq, footer),
        registry_strict(entries),
        entries.len() == 0 ==> t.scopes.len() == 0,
        b.wf(),
        b.represents(opened(b.content(), metas_of(base_blobs(t, entries, opts, seq)))->Ok_0),
    ensures
        open_error(b.content(), metas_of(base_blobs(t, entries, opts, seq))) is None,
        serves_tables(b, t, entries, seq),
{
    let file = b.content();
    let blobs = base_blobs(t, entries, opts, seq);
    let metas = metas_of(blobs);
    let n = t.scopes.len() as int;
    let k = blobs.len() as int;
    assert forall|i: int|
        0 <= i < metas.len()
    implies !out_of_bounds(#[trigger] metas[i], file.len()) by {
        blob_is_there(file, blobs, footer, i);
    }
    no_range_error(metas, file.len());
    all_open_upto(file, t, entries, opts, seq, footer, k);
    assert(metas.take(k) =~= metas);
    let o = opened_after(t, entries, opts, seq, k);
    assert(table_blobs(t, seq).len() == n + 1);
    assert(k >= n + 1);
    assert(blobs[0] == table_blobs(t, seq)[0]);
    table_opens(file, blobs, footer, 0, t.global);
    assert(b.shared_table() == o.shared);
    assert(t.scopes.take(n) =~= t.scopes);
    assert forall|s: ScopeId| #[trigger] b.overlay_pairs(s) == pairs_for(t.scopes, s) by {
        overlays_hold(file, t, entries, opts, seq, footer, n as nat, s);
        assert(table_of(b.overlay_tables(), s) == if o.overlays.contains_key(s) {
            Some(o.overlays[s])
        } else {
            None
        });
    }
    assert forall|s: ScopeId| b.scope_list().contains(s) <==> #[trigger] lists_scope(t.scopes, s) by {
        overlays_hold(file, t, entries, opts, seq, footer, n as nat, s);
        assert(table_of(b.overlay_tables(), s) == if o.overlays.contains_key(s) {
            Some(o.overlays[s])
        } else {
            None
        });
        super::base::listed_where_tabled(b.overlay_tables(), s);
        let list = b.scope_list();
        let tables = b.overlay_tables();
        if list.contains(s) {
            let i = list.index_of(s);
            assert(tables[i].scope == s);
        }
        if exists|i: int| 0 <= i < tables.len() && (#[trigger] tables[i]).scope == s {
            let i = choose|i: int| 0 <= i < tables.len() && (#[trigger] tables[i]).scope == s;
            assert(list[i] == s);
        }
    }
    if entries.len() > 0 {
        let at = offset_of(blobs, n + 1);
        assert(blobs[n + 1] == registry_blob(entries, opts.registry, seq)[0]);
        blob_is_there(file, blobs, footer, n + 1);
        strict_ascends(entries);
        match opts.registry {
            RegistryEncoding::Flat => {
                flat_registry_reads_back(file, at, entries);
                assert forall|root: NodeId, s: ScopeId|
                    (#[trigger] b.registered(root).contains(s)) <==> entries.contains((root, s)) by {
                    sorted_registries_answer(entries, root);
                    scopes_with_lists(entries, root, s);
                }
            },
            RegistryEncoding::Blocked => {
                registry_fits(file, blobs, footer, n + 1, entries);
                blocked_registry_reads_back(entries, BLOCK_BYTES as nat, file, at);
                if let Some(RegistryIndex::Blocked(reg)) = b.registry_index() {
                    assert(reg.index.describes(file, at));
                    super::base::registry_is_inside(b);
                    assert(reg.index.fits(file.len()));
                    assert forall|root: NodeId, s: ScopeId|
                        (#[trigger] b.registered(root).contains(s)) <==> entries.contains((root, s)) by {
                        assert(reg.answer(file, root) == scopes_with(entries, root));
                        scopes_with_lists(entries, root, s);
                    }
                }
            },
        }
    } else {
        assert(o.registry is None);
        assert(b.overlay_tables().len() == 0) by {
            if b.overlay_tables().len() > 0 {
                let s = b.overlay_tables()[0].scope;
                assert(b.scope_list()[0] == s);
                assert(b.scope_list().contains(s));
                assert(lists_scope(t.scopes, s));
            }
        }
        assert(b.registry_entries() =~= entries);
    }
}

// --- a forest on disk -------------------------------------------------------------------------------

pub proof fn pairs_for_is(scopes: Seq<ScopePairs>, s: ScopeId)
    requires
        scopes_strict(scopes),
    ensures
        forall|i: int|
            0 <= i < scopes.len() && (#[trigger] scopes[i]).scope == s ==> pairs_for(scopes, s)
                == scopes[i].pairs,
        !lists_scope(scopes, s) ==> pairs_for(scopes, s) == Seq::<(NodeId, NodeId)>::empty(),
    decreases scopes.len(),
{
    if scopes.len() > 0 {
        let front = scopes.drop_last();
        let n = scopes.len() - 1;
        assert forall|i: int, j: int| 0 <= i < j < front.len() implies (#[trigger] front[i]).scope
            < (#[trigger] front[j]).scope by {
            assert(scopes[i].scope < scopes[j].scope);
        }
        pairs_for_is(front, s);
        assert forall|i: int| 0 <= i < scopes.len() && (#[trigger] scopes[i]).scope == s implies pairs_for(
            scopes,
            s,
        ) == scopes[i].pairs by {
            if i < n {
                assert(scopes[i].scope < scopes[n].scope);
                assert(front[i] == scopes[i]);
            }
        }
        if !lists_scope(scopes, s) {
            assert(scopes[n].scope != s);
            if lists_scope(front, s) {
                let i = choose|i: int| 0 <= i < front.len() && (#[trigger] front[i]).scope == s;
                assert(scopes[i].scope == s);
            }
        }
    }
}

/// A table that lists `links` is served as `links`.
pub proof fn listed_table_serves(pairs: Seq<(NodeId, NodeId)>, links: Map<NodeId, NodeId>)
    requires
        lists(pairs, links),
    ensures
        table_links(pairs) == links,
        lists(pairs, table_links(pairs)),
{
    sorted_tables_answer(pairs);
    listed_links_agree(pairs, table_links(pairs), links);
}

proof fn no_pairs_list_nothing(links: Map<NodeId, NodeId>)
    requires
        forall|k: NodeId| !(#[trigger] links.contains_key(k)),
    ensures
        lists(Seq::<(NodeId, NodeId)>::empty(), links),
{
}

/// What a base that serves a capture answers.
proof fn served_capture(forest: &ScopedForest, b: &PuffinBase, t: SnapshotView, s: ScopeId)
    requires
        forest.wf(),
        forest.consistent(),
        forest.captured_in(t),
        b.shared_pairs() == t.global,
        forall|s: ScopeId| #[trigger] b.overlay_pairs(s) == pairs_for(t.scopes, s),
    ensures
        b.shared_links() == forest.encoded(None),
        lists(b.shared_stream(), b.shared_links()),
        b.overlay_links(s) == forest.encoded(Some(s)),
        lists(b.overlay_stream(s), b.overlay_links(s)),
        (exists|k: NodeId| #[trigger] forest.encoded(Some(s)).contains_key(k)) ==> lists_scope(
            t.scopes,
            s,
        ),
{
    listed_table_serves(t.global, forest.encoded(None));
    let pairs = pairs_for(t.scopes, s);
    assert(b.overlay_pairs(s) == pairs);
    pairs_for_is(t.scopes, s);
    if lists_scope(t.scopes, s) {
        let i = choose|i: int| 0 <= i < t.scopes.len() && (#[trigger] t.scopes[i]).scope == s;
        assert(lists(t.scopes[i].pairs, forest.encoded(Some(s))));
    } else {
        no_pairs_list_nothing(forest.encoded(Some(s)));
    }
    listed_table_serves(pairs, forest.encoded(Some(s)));
}

/// **A forest compacted to disk is served as it was**: a base opened from the
/// file holds exactly the forest's resolved pairs, and is a valid base for
/// what is applied next.
pub proof fn compacted_file_serves_the_forest(
    forest: &ScopedForest,
    b: &PuffinBase,
    opts: WriteOptions,
    seq: i64,
    footer: Seq<u8>,
)
    requires
        forest.wf(),
        forest.consistent(),
        b.wf(),
        file_of(
            b.content(),
            collected_tables(forest.stream(true)),
            registry_listing(registry_events(forest.stream(true))),
            opts,
            seq,
            footer,
        ),
        b.represents(
            opened(
                b.content(),
                metas_of(
                    base_blobs(
                        collected_tables(forest.stream(true)),
                        registry_listing(registry_events(forest.stream(true))),
                        opts,
                        seq,
                    ),
                ),
            )->Ok_0,
        ),
    ensures
        forest.captured_by(b),
        valid_base(b),
{
    let t = collected_tables(forest.stream(true));
    let raw = registry_events(forest.stream(true));
    let entries = registry_listing(raw);
    forest.collecting_the_stream_captures();
    forest.whole_stream_registers_the_base();
    registry_listing_lists(raw);
    if t.scopes.len() > 0 {
        let s = t.scopes[0].scope;
        assert(t.scopes[0].pairs.len() > 0);
        let k = t.scopes[0].pairs[0].0;
        assert(forest.encoded(Some(s)).contains_key(k));
        let root = forest.shared(k);
        assert(forest.pair_touches(s, k, root));
        assert(forest.encoded_registry(root).contains(s));
        assert(raw.contains((root, s)));
        assert(entries.contains((root, s)));
    }
    written_base_is_served(b, t, entries, opts, seq, footer);
    assert forall|s: ScopeId| #[trigger] b.overlay_links(s) == forest.encoded(Some(s)) by {
        served_capture(forest, b, t, s);
    }
    served_capture(forest, b, t, 0);
    assert forall|s: ScopeId| lists(#[trigger] b.overlay_stream(s), b.overlay_links(s)) by {
        served_capture(forest, b, t, s);
    }
    assert forall|r: NodeId| #[trigger] b.registered(r) == forest.encoded_registry(r) by {
        assert forall|s: ScopeId| b.registered(r).contains(s) == forest.encoded_registry(r).contains(s) by {
            assert(entries.contains((r, s)) <==> raw.contains((r, s)));
        }
        assert(b.registered(r) =~= forest.encoded_registry(r));
    }
    let list = b.scope_list();
    assert forall|i: int, j: int|
        0 <= i < j < list.len()
    implies #[trigger] list[i] < #[trigger] list[j] by {
        assert(b.overlay_tables()[i].scope < b.overlay_tables()[j].scope);
    }
    assert forall|s: ScopeId, k: NodeId|
        #[trigger] b.overlay_links(s).contains_key(k)
    implies b.scope_list().contains(s) by {
        served_capture(forest, b, t, s);
        assert(forest.encoded(Some(s)).contains_key(k));
        assert(lists_scope(t.scopes, s));
    }
    forest.a_compacted_base_is_valid(b);
}

} // verus!
