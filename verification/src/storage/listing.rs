//! A written member index lists its tables: what a base opened from a file
//! answers downwards is what the file's tables record upwards.

use vstd::prelude::*;

use super::base::{opened, PuffinBase};
use super::blocks::{at_most, entries_ascend, entry_le};
use super::codec::{
    base_blobs, collected_tables, inverted, is_index_of, member_blobs_are_there,
    member_blobs_stand_apart, member_pairs, member_types_apart, named_scope, overlay_member_blobs,
    overlay_member_blobs_are, scope_blob, scopes_strict, shared_member_blob, table_blobs,
    CodecError, WriteOptions, SCOPE_ID_PROP,
};
use super::descent::{
    child_run, first_of, is_there, kids_in, member_at, overlay_member_at, overlay_members_at,
    shared_member_at, shared_members_at, some_in, MemberTable, MembersAt,
};
use super::layered::{kids_over, layer_kids, layer_some, links_of, some_over, LayeredBase};
use super::members::{
    blocked_members_read_back, is_overlay_members, is_shared_members, members_bytes, members_type,
    MemberEncoding, Tier, OVERLAY_BLOCKED_BLOB_TYPE, OVERLAY_FLAT_BLOB_TYPE,
    SHARED_BLOCKED_BLOB_TYPE, SHARED_FLAT_BLOB_TYPE,
};
use super::packing::{index_fits, values_with};
use super::puffin::{file_bytes, placed, BlobView, MetaView};
use super::registry::BLOCK_BYTES;
use super::round_trip::{
    blob_is_there, compacted_file_serves_the_forest, file_of, metas_of, offset_of, pairs_for,
    pairs_for_is, serves_tables, table_opens, written_base_is_served,
};
use super::sorted::{pairs_sorted_sorts, registry_listing, registry_listing_lists};
use super::stacking::{
    a_key_leads_where_its_parent_leads, clear_of, empty_delta_registries, keys_lead_elsewhere,
    stacked, well_stacked,
};
use super::table::{pair_bytes_len, table_bytes};
use super::wire::le_len;
use crate::graph::base::{
    ascending, first, kids_index, lists, resolved, step_up, valid_base, valid_member_index,
    RoutingBase,
};
use crate::graph::scoped::{has_key, lists_scope, ScopedForest};
use crate::graph::sink::registry_events;
use crate::graph::snapshot::{ScopePairs, SnapshotView};
use crate::graph::types::{NodeId, ScopeId};
use crate::text::{decimal, decimal_reads_back};

verus! {

// --- reading one index -----------------------------------------------------------------------------

/// The index `t` answers with the children of `pairs`.
pub open spec fn reads(
    t: Option<MemberTable>,
    data: Seq<u8>,
    pairs: Seq<(NodeId, NodeId)>,
) -> bool {
    &&& forall|p: NodeId| #[trigger] kids_in(t, data, p) == values_with(pairs, p)
    &&& forall|p: NodeId, limit: nat| #[trigger]
        some_in(t, data, p, limit) == first(values_with(pairs, p), limit)
}

proof fn first_of_is(pairs: Seq<(NodeId, NodeId)>, lo: int, hi: int, parent: NodeId)
    requires
        entries_ascend(pairs),
        0 <= lo <= hi <= pairs.len(),
        forall|i: int| 0 <= i < lo ==> (#[trigger] pairs[i]).0 < parent,
        forall|i: int| hi <= i < pairs.len() ==> (#[trigger] pairs[i]).0 >= parent,
    ensures
        ({
            let n = first_of(pairs, lo, hi, parent);
            &&& lo <= n <= hi
            &&& forall|i: int| 0 <= i < n ==> (#[trigger] pairs[i]).0 < parent
            &&& forall|i: int| n <= i < pairs.len() ==> (#[trigger] pairs[i]).0 >= parent
        }),
    decreases hi - lo,
{
    if lo < hi {
        let mid = lo + (hi - lo) / 2;
        if pairs[mid].0 < parent {
            assert forall|i: int| 0 <= i < mid + 1 implies (#[trigger] pairs[i]).0 < parent by {
                if i < mid {
                    assert(entry_le(pairs[i], pairs[mid]));
                }
            }
            first_of_is(pairs, mid + 1, hi, parent);
        } else {
            assert forall|i: int|
                mid <= i < pairs.len()
            implies (#[trigger] pairs[i]).0 >= parent by {
                if mid < i {
                    assert(entry_le(pairs[mid], pairs[i]));
                }
            }
            first_of_is(pairs, lo, mid, parent);
        }
    }
}

proof fn values_with_join(a: Seq<(NodeId, NodeId)>, b: Seq<(NodeId, NodeId)>, parent: NodeId)
    ensures
        values_with(a + b, parent) == values_with(a, parent) + values_with(b, parent),
    decreases b.len(),
{
    if b.len() == 0 {
        assert(a + b =~= a);
        assert(values_with(a, parent) + values_with(b, parent) =~= values_with(a, parent));
    } else {
        assert((a + b).drop_last() =~= a + b.drop_last());
        assert((a + b).last() == b.last());
        values_with_join(a, b.drop_last(), parent);
        assert(values_with(a + b, parent) =~= values_with(a, parent) + values_with(b, parent));
    }
}

proof fn no_values_with(pairs: Seq<(NodeId, NodeId)>, parent: NodeId)
    requires
        forall|i: int| 0 <= i < pairs.len() ==> (#[trigger] pairs[i]).0 != parent,
    ensures
        values_with(pairs, parent) == Seq::<NodeId>::empty(),
    decreases pairs.len(),
{
    if pairs.len() > 0 {
        let front = pairs.drop_last();
        assert forall|i: int| 0 <= i < front.len() implies (#[trigger] front[i]).0 != parent by {
            assert(pairs[i].0 != parent);
        }
        assert(pairs[pairs.len() - 1].0 != parent);
        no_values_with(front, parent);
    }
}

proof fn run_is_the_rest(pairs: Seq<(NodeId, NodeId)>, i: int, parent: NodeId)
    requires
        entries_ascend(pairs),
        0 <= i <= pairs.len(),
        forall|j: int| i <= j < pairs.len() ==> (#[trigger] pairs[j]).0 >= parent,
    ensures
        child_run(pairs, i, parent) == values_with(pairs.skip(i), parent),
    decreases pairs.len() - i,
{
    let rest = pairs.skip(i);
    if i < pairs.len() {
        let one = seq![pairs[i]];
        assert(rest =~= one + pairs.skip(i + 1));
        values_with_join(one, pairs.skip(i + 1), parent);
        if pairs[i].0 == parent {
            run_is_the_rest(pairs, i + 1, parent);
            assert(one.drop_last() =~= Seq::empty());
            assert(values_with(one.drop_last(), parent) =~= Seq::empty());
            assert(values_with(one, parent) =~= seq![pairs[i].1]);
        } else {
            assert forall|j: int| 0 <= j < rest.len() implies (#[trigger] rest[j]).0 != parent by {
                if j > 0 {
                    assert(entry_le(pairs[i], pairs[i + j]));
                }
            }
            no_values_with(rest, parent);
        }
    } else {
        assert(rest =~= Seq::empty());
    }
}

/// **Lookups in a sorted member table answer what it lists.**
pub proof fn sorted_members_answer(pairs: Seq<(NodeId, NodeId)>, parent: NodeId)
    requires
        entries_ascend(pairs),
    ensures
        child_run(pairs, first_of(pairs, 0, pairs.len() as int, parent), parent) == values_with(
            pairs,
            parent,
        ),
{
    first_of_is(pairs, 0, pairs.len() as int, parent);
    let n = first_of(pairs, 0, pairs.len() as int, parent);
    run_is_the_rest(pairs, n, parent);
    assert(pairs =~= pairs.take(n) + pairs.skip(n));
    values_with_join(pairs.take(n), pairs.skip(n), parent);
    let low = pairs.take(n);
    assert forall|i: int| 0 <= i < low.len() implies (#[trigger] low[i]).0 != parent by {
        assert(pairs[i].0 < parent);
    }
    no_values_with(low, parent);
    assert(values_with(pairs, parent) =~= values_with(pairs.skip(n), parent));
}

proof fn values_are_few(pairs: Seq<(NodeId, NodeId)>, parent: NodeId)
    ensures
        values_with(pairs, parent).len() <= pairs.len(),
    decreases pairs.len(),
{
    if pairs.len() > 0 {
        values_are_few(pairs.drop_last(), parent);
    }
}

/// A value is listed for a parent where a pair says so.
proof fn values_with_lists(pairs: Seq<(NodeId, NodeId)>, parent: NodeId, child: NodeId)
    ensures
        values_with(pairs, parent).contains(child) <==> pairs.contains((parent, child)),
    decreases pairs.len(),
{
    let all = values_with(pairs, parent);
    if pairs.len() > 0 {
        let front = pairs.drop_last();
        let before = values_with(front, parent);
        values_with_lists(front, parent, child);
        if pairs.contains((parent, child)) {
            let i = pairs.index_of((parent, child));
            if i < front.len() {
                assert(front[i] == (parent, child));
                assert(front.contains((parent, child)));
                let j = before.index_of(child);
                assert(all[j] == child);
            } else {
                assert(all[all.len() - 1] == child);
            }
        }
        if all.contains(child) {
            let j = all.index_of(child);
            if j < before.len() {
                assert(before[j] == child);
                assert(before.contains(child));
                let i = front.index_of((parent, child));
                assert(pairs[i] == (parent, child));
            } else {
                assert(pairs[pairs.len() - 1] == (parent, child));
            }
        }
    }
}

proof fn values_are_distinct(pairs: Seq<(NodeId, NodeId)>, parent: NodeId)
    requires
        pairs.no_duplicates(),
    ensures
        values_with(pairs, parent).no_duplicates(),
    decreases pairs.len(),
{
    if pairs.len() > 0 {
        let front = pairs.drop_last();
        values_are_distinct(front, parent);
        if pairs.last().0 == parent {
            let child = pairs.last().1;
            let before = values_with(front, parent);
            values_with_lists(front, parent, child);
            if before.contains(child) {
                let i = front.index_of((parent, child));
                assert(pairs[i] == pairs[pairs.len() - 1]);
            }
        }
    }
}

// --- finding an index ------------------------------------------------------------------------------

spec fn shared_is_at(data: Seq<u8>, metas: Seq<MetaView>, j: int, at: MembersAt) -> bool {
    0 <= j < metas.len() && shared_member_at(data, metas[j]) == Some(at)
}

spec fn overlay_is_at(
    data: Seq<u8>,
    metas: Seq<MetaView>,
    scope: ScopeId,
    j: int,
    at: MembersAt,
) -> bool {
    0 <= j < metas.len() && overlay_member_at(data, metas[j], scope) == Some(at)
}

proof fn shared_found(data: Seq<u8>, metas: Seq<MetaView>)
    ensures
        match shared_members_at(data, metas) {
            Some(at) => exists|j: int| #[trigger] shared_is_at(data, metas, j, at),
            None => forall|j: int|
                0 <= j < metas.len() ==> shared_member_at(data, #[trigger] metas[j]) is None,
        },
    decreases metas.len(),
{
    if metas.len() > 0 {
        let front = metas.drop_last();
        let n = metas.len() - 1;
        shared_found(data, front);
        match shared_member_at(data, metas.last()) {
            Some(at) => {
                assert(shared_is_at(data, metas, n, at));
            },
            None => match shared_members_at(data, front) {
                Some(at) => {
                    let j = choose|j: int| #[trigger] shared_is_at(data, front, j, at);
                    assert(front[j] == metas[j]);
                    assert(shared_is_at(data, metas, j, at));
                },
                None => {
                    assert forall|j: int| 0 <= j < metas.len() implies shared_member_at(
                        data,
                        #[trigger] metas[j],
                    ) is None by {
                        if j < n {
                            assert(front[j] == metas[j]);
                        }
                    }
                },
            },
        }
    }
}

proof fn overlay_found(data: Seq<u8>, metas: Seq<MetaView>, scope: ScopeId)
    ensures
        match overlay_members_at(data, metas, scope) {
            Some(at) => exists|j: int| #[trigger] overlay_is_at(data, metas, scope, j, at),
            None => forall|j: int|
                0 <= j < metas.len() ==> overlay_member_at(
                    data,
                    #[trigger] metas[j],
                    scope,
                ) is None,
        },
    decreases metas.len(),
{
    if metas.len() > 0 {
        let front = metas.drop_last();
        let n = metas.len() - 1;
        overlay_found(data, front, scope);
        match overlay_member_at(data, metas.last(), scope) {
            Some(at) => {
                assert(overlay_is_at(data, metas, scope, n, at));
            },
            None => match overlay_members_at(data, front, scope) {
                Some(at) => {
                    let j = choose|j: int| #[trigger] overlay_is_at(data, front, scope, j, at);
                    assert(front[j] == metas[j]);
                    assert(overlay_is_at(data, metas, scope, j, at));
                },
                None => {
                    assert forall|j: int| 0 <= j < metas.len() implies overlay_member_at(
                        data,
                        #[trigger] metas[j],
                        scope,
                    ) is None by {
                        if j < n {
                            assert(front[j] == metas[j]);
                        }
                    }
                },
            },
        }
    }
}

// --- a written index -------------------------------------------------------------------------------

/// Whatever index is at `at` answers with the children of `pairs`.
pub open spec fn reads_at(
    data: Seq<u8>,
    at: Option<MembersAt>,
    pairs: Seq<(NodeId, NodeId)>,
) -> bool {
    at matches Some(a) && forall|t: MemberTable|
        #[trigger] t.is_at(data, a) && t.inside(data.len()) ==> reads(Some(t), data, pairs)
}

/// A member index blob opens as its index.
proof fn members_open(
    file: Seq<u8>,
    blobs: Seq<BlobView>,
    footer: Seq<u8>,
    i: int,
    encoding: MemberEncoding,
    pairs: Seq<(NodeId, NodeId)>,
    flat: Seq<char>,
    blocked: Seq<char>,
)
    requires
        file == file_bytes(blobs, footer),
        footer.len() <= u32::MAX,
        file.len() <= usize::MAX,
        0 <= i < blobs.len(),
        entries_ascend(pairs),
        pairs.len() <= u64::MAX,
        flat != blocked,
        blobs[i].blob_type == match encoding {
            MemberEncoding::Flat => flat,
            MemberEncoding::Blocked => blocked,
        },
        blobs[i].data == members_bytes(encoding, pairs, BLOCK_BYTES as nat),
    ensures
        reads_at(file, member_at(file, placed(blobs, i), flat, blocked), pairs),
{
    let at = member_at(file, placed(blobs, i), flat, blocked);
    blob_is_there(file, blobs, footer, i);
    match encoding {
        MemberEncoding::Flat => {
            table_opens(file, blobs, footer, i, pairs);
            let a = at->0;
            assert forall|t: MemberTable|
                #[trigger] t.is_at(file, a) && t.inside(file.len())
            implies reads(Some(t), file, pairs) by {
                assert forall|p: NodeId| #[trigger] kids_in(Some(t), file, p) == values_with(
                    pairs,
                    p,
                ) by {
                    sorted_members_answer(pairs, p);
                }
                assert forall|p: NodeId, limit: nat| #[trigger]
                    some_in(Some(t), file, p, limit) == first(values_with(pairs, p), limit) by {
                    assert(kids_in(Some(t), file, p) == values_with(pairs, p));
                }
            }
        },
        MemberEncoding::Blocked => {
            let start = offset_of(blobs, i);
            assert(index_fits(pairs, BLOCK_BYTES as nat));
            blocked_members_read_back(pairs, BLOCK_BYTES as nat, file, start);
            let a = at->0;
            assert forall|t: MemberTable|
                #[trigger] t.is_at(file, a) && t.inside(file.len())
            implies reads(Some(t), file, pairs) by {
                if let MemberTable::Blocked(m) = t {
                    assert(m.index.describes(file, start));
                    assert forall|p: NodeId| #[trigger] kids_in(Some(t), file, p) == values_with(
                        pairs,
                        p,
                    ) by {
                        values_are_few(pairs, p);
                        assert(m.answer(file, p, m.index.count as nat) == at_most(
                            values_with(pairs, p),
                            m.index.count as nat,
                        ));
                    }
                    assert forall|p: NodeId, limit: nat| #[trigger]
                        some_in(Some(t), file, p, limit) == first(values_with(pairs, p), limit) by {
                        assert(m.answer(file, p, limit) == at_most(values_with(pairs, p), limit));
                    }
                }
            }
        },
    }
}

proof fn nothing_reads_as_nothing(data: Seq<u8>, pairs: Seq<(NodeId, NodeId)>)
    requires
        pairs.len() == 0,
    ensures
        reads(None, data, pairs),
{
}

proof fn inverting_shortens(pairs: Seq<(NodeId, NodeId)>)
    ensures
        inverted(pairs).len() <= pairs.len(),
    decreases pairs.len(),
{
    if pairs.len() > 0 {
        inverting_shortens(pairs.drop_last());
    }
}

/// A written table has no more pairs than its file has bytes.
proof fn written_pairs_are_few(
    file: Seq<u8>,
    blobs: Seq<BlobView>,
    footer: Seq<u8>,
    i: int,
    pairs: Seq<(NodeId, NodeId)>,
)
    requires
        file == file_bytes(blobs, footer),
        footer.len() <= u32::MAX,
        file.len() <= usize::MAX,
        0 <= i < blobs.len(),
        blobs[i].data == table_bytes(pairs),
    ensures
        entries_ascend(member_pairs(pairs)),
        member_pairs(pairs).len() <= pairs.len() < usize::MAX,
{
    blob_is_there(file, blobs, footer, i);
    pair_bytes_len(pairs);
    le_len(pairs.len() as u64 as nat, 8);
    pairs_sorted_sorts(inverted(pairs));
    inverting_shortens(pairs);
}

/// `b` answers downwards what its tables record upwards.
pub open spec fn indexes_its_tables(b: &PuffinBase) -> bool {
    &&& reads(b.shared_member_table(), b.content(), member_pairs(b.shared_pairs()))
    &&& forall|s: ScopeId|
        reads(
            #[trigger] b.overlay_member_table(s),
            b.content(),
            member_pairs(b.overlay_pairs(s)),
        )
    &&& b.shared_pairs().len() < usize::MAX
    &&& forall|s: ScopeId| (#[trigger] b.overlay_pairs(s)).len() < usize::MAX
    &&& member_pairs(b.shared_pairs()).len() > 0 ==> b.shared_member_table() is Some
    &&& forall|s: ScopeId|
        member_pairs(#[trigger] b.overlay_pairs(s)).len() > 0 ==> b.overlay_member_table(s) is Some
}

proof fn shared_index_reads(
    b: &PuffinBase,
    t: SnapshotView,
    entries: Seq<(NodeId, ScopeId)>,
    opts: WriteOptions,
    seq: i64,
    footer: Seq<u8>,
)
    requires
        file_of(b.content(), t, entries, opts, seq, footer),
        opts.member_index,
        b.lists_from(metas_of(base_blobs(t, entries, opts, seq))),
    ensures
        reads(b.shared_member_table(), b.content(), member_pairs(t.global)),
        member_pairs(t.global).len() > 0 ==> b.shared_member_table() is Some,
        t.global.len() < usize::MAX,
{
    let file = b.content();
    let blobs = base_blobs(t, entries, opts, seq);
    let metas = metas_of(blobs);
    let mp = member_pairs(t.global);
    let e = shared_member_blob(t.global, opts.members, seq);
    assert(blobs[0] == table_blobs(t, seq)[0]);
    written_pairs_are_few(file, blobs, footer, 0, t.global);
    member_types_apart(opts);
    shared_found(file, metas);
    match shared_members_at(file, metas) {
        Some(at) => {
            let j = choose|j: int| #[trigger] shared_is_at(file, metas, j, at);
            member_blobs_stand_apart(t, entries, opts, seq, j);
            assert(is_shared_members(blobs[j].blob_type));
            assert(e.contains(blobs[j]));
            assert(blobs[j] == e[0]);
            members_open(
                file,
                blobs,
                footer,
                j,
                opts.members,
                mp,
                SHARED_FLAT_BLOB_TYPE@,
                SHARED_BLOCKED_BLOB_TYPE@,
            );
            assert(b.shared_member_table()->0.is_at(file, at));
        },
        None => {
            if mp.len() > 0 {
                assert(e.contains(e[0]));
                member_blobs_are_there(t, entries, opts, seq, e[0]);
                let j = blobs.index_of(e[0]);
                members_open(
                    file,
                    blobs,
                    footer,
                    j,
                    opts.members,
                    mp,
                    SHARED_FLAT_BLOB_TYPE@,
                    SHARED_BLOCKED_BLOB_TYPE@,
                );
                assert(shared_member_at(file, metas[j]) is None);
            }
            nothing_reads_as_nothing(file, mp);
        },
    }
}

proof fn index_blob_names_its_scope(
    scopes: Seq<ScopePairs>,
    encoding: MemberEncoding,
    seq: i64,
    x: int,
    blobs: Seq<BlobView>,
    j: int,
)
    requires
        0 <= j < blobs.len(),
        is_index_of(scopes, encoding, seq, x, blobs[j]),
    ensures
        named_scope(placed(blobs, j).properties) == Ok::<ScopeId, CodecError>(scopes[x].scope),
{
    let m = placed(blobs, j);
    assert(m.properties[0] == (SCOPE_ID_PROP@, decimal(scopes[x].scope as nat)));
    decimal_reads_back(scopes[x].scope as nat, u32::MAX as nat);
}

proof fn overlay_index_reads(
    b: &PuffinBase,
    t: SnapshotView,
    entries: Seq<(NodeId, ScopeId)>,
    opts: WriteOptions,
    seq: i64,
    footer: Seq<u8>,
    s: ScopeId,
)
    requires
        file_of(b.content(), t, entries, opts, seq, footer),
        opts.member_index,
        scopes_strict(t.scopes),
        b.lists_from(metas_of(base_blobs(t, entries, opts, seq))),
    ensures
        reads(b.overlay_member_table(s), b.content(), member_pairs(pairs_for(t.scopes, s))),
        member_pairs(pairs_for(t.scopes, s)).len() > 0 ==> b.overlay_member_table(s) is Some,
        pairs_for(t.scopes, s).len() < usize::MAX,
{
    let file = b.content();
    let blobs = base_blobs(t, entries, opts, seq);
    let metas = metas_of(blobs);
    let mp = member_pairs(pairs_for(t.scopes, s));
    let f = overlay_member_blobs(t.scopes, opts.members, seq);
    member_types_apart(opts);
    pairs_for_is(t.scopes, s);
    pairs_sorted_sorts(inverted(Seq::<(NodeId, NodeId)>::empty()));
    let here = if lists_scope(t.scopes, s) {
        choose|x: int| 0 <= x < t.scopes.len() && (#[trigger] t.scopes[x]).scope == s
    } else {
        -1
    };
    if lists_scope(t.scopes, s) {
        assert(t.scopes[here].scope == s);
        assert(blobs[here + 1] == table_blobs(t, seq)[here + 1]);
        written_pairs_are_few(file, blobs, footer, here + 1, t.scopes[here].pairs);
    }
    overlay_found(file, metas, s);
    assert(is_there(b.overlay_member_table(s), file, overlay_members_at(file, metas, s)));
    match overlay_members_at(file, metas, s) {
        Some(at) => {
            let j = choose|j: int| #[trigger] overlay_is_at(file, metas, s, j, at);
            member_blobs_stand_apart(t, entries, opts, seq, j);
            assert(is_overlay_members(blobs[j].blob_type));
            overlay_member_blobs_are(t.scopes, opts.members, seq, blobs[j]);
            let x = choose|x: int| #[trigger]
                is_index_of(t.scopes, opts.members, seq, x, blobs[j]);
            index_blob_names_its_scope(t.scopes, opts.members, seq, x, blobs, j);
            assert(t.scopes[x].scope == s);
            assert(pairs_for(t.scopes, s) == t.scopes[x].pairs);
            members_open(
                file,
                blobs,
                footer,
                j,
                opts.members,
                mp,
                OVERLAY_FLAT_BLOB_TYPE@,
                OVERLAY_BLOCKED_BLOB_TYPE@,
            );
            assert(b.overlay_member_table(s)->0.is_at(file, at));
        },
        None => {
            if mp.len() > 0 {
                assert(lists_scope(t.scopes, s));
                let blob = scope_blob(
                    members_type(opts.members, Tier::Overlay),
                    members_bytes(opts.members, mp, BLOCK_BYTES as nat),
                    s,
                    seq,
                );
                assert(is_index_of(t.scopes, opts.members, seq, here, blob));
                overlay_member_blobs_are(t.scopes, opts.members, seq, blob);
                member_blobs_are_there(t, entries, opts, seq, blob);
                let j = blobs.index_of(blob);
                index_blob_names_its_scope(t.scopes, opts.members, seq, here, blobs, j);
                members_open(
                    file,
                    blobs,
                    footer,
                    j,
                    opts.members,
                    mp,
                    OVERLAY_FLAT_BLOB_TYPE@,
                    OVERLAY_BLOCKED_BLOB_TYPE@,
                );
                assert(overlay_member_at(file, metas[j], s) is None);
            }
            nothing_reads_as_nothing(file, mp);
        },
    }
}

/// **A written member index is served as it was written**: a base opened from
/// a file with one answers every parent with exactly the nodes that its tables
/// record below it, whichever encoding the index has.
pub proof fn written_members_are_served(
    b: &PuffinBase,
    t: SnapshotView,
    entries: Seq<(NodeId, ScopeId)>,
    opts: WriteOptions,
    seq: i64,
    footer: Seq<u8>,
)
    requires
        file_of(b.content(), t, entries, opts, seq, footer),
        opts.member_index,
        scopes_strict(t.scopes),
        b.lists_from(metas_of(base_blobs(t, entries, opts, seq))),
        serves_tables(b, t, entries, seq),
    ensures
        indexes_its_tables(b),
{
    shared_index_reads(b, t, entries, opts, seq, footer);
    assert forall|s: ScopeId|
        #![trigger b.overlay_member_table(s)]
        #![trigger b.overlay_pairs(s)]
        reads(b.overlay_member_table(s), b.content(), member_pairs(b.overlay_pairs(s)))
            && b.overlay_pairs(s).len() < usize::MAX && (member_pairs(b.overlay_pairs(s)).len() > 0
            ==> b.overlay_member_table(s) is Some) by {
        overlay_index_reads(b, t, entries, opts, seq, footer, s);
        assert(b.overlay_pairs(s) == pairs_for(t.scopes, s));
    }
}

// --- a valid index ---------------------------------------------------------------------------------

proof fn inverted_is(pairs: Seq<(NodeId, NodeId)>, parent: NodeId, child: NodeId)
    ensures
        inverted(pairs).contains((parent, child)) <==> pairs.contains((child, parent)) && child
            != parent,
    decreases pairs.len(),
{
    let all = inverted(pairs);
    if pairs.len() > 0 {
        let front = pairs.drop_last();
        let before = inverted(front);
        inverted_is(front, parent, child);
        if all.contains((parent, child)) {
            let i = all.index_of((parent, child));
            if i < before.len() {
                assert(before[i] == (parent, child));
                assert(before.contains((parent, child)));
                let j = front.index_of((child, parent));
                assert(pairs[j] == (child, parent));
            } else {
                assert(pairs[pairs.len() - 1] == (child, parent));
            }
        }
        if pairs.contains((child, parent)) && child != parent {
            let j = pairs.index_of((child, parent));
            if j < front.len() {
                assert(front[j] == (child, parent));
                assert(front.contains((child, parent)));
                let i = before.index_of((parent, child));
                assert(all[i] == (parent, child));
            } else {
                assert(all[all.len() - 1] == (parent, child));
            }
        }
    }
}

proof fn inverted_is_distinct(pairs: Seq<(NodeId, NodeId)>)
    requires
        ascending(pairs),
    ensures
        inverted(pairs).no_duplicates(),
    decreases pairs.len(),
{
    if pairs.len() > 0 {
        let front = pairs.drop_last();
        let n = pairs.len() - 1;
        assert forall|i: int, j: int| 0 <= i < j < front.len() implies (#[trigger] front[i]).0 < (
        #[trigger] front[j]).0 by {
            assert(pairs[i].0 < pairs[j].0);
        }
        inverted_is_distinct(front);
        let (child, parent) = pairs.last();
        inverted_is(front, parent, child);
        if front.contains((child, parent)) {
            let i = front.index_of((child, parent));
            assert(pairs[i].0 < pairs[n].0);
        }
    }
}

/// What the member index of an ascending table lists.
pub proof fn members_of_a_table(pairs: Seq<(NodeId, NodeId)>, parent: NodeId)
    requires
        ascending(pairs),
    ensures
        forall|child: NodeId| #[trigger]
            values_with(member_pairs(pairs), parent).contains(child) <==> pairs.contains(
                (child, parent),
            ) && child != parent,
        values_with(member_pairs(pairs), parent).no_duplicates(),
        values_with(member_pairs(pairs), parent).len() <= pairs.len(),
{
    let raw = inverted(pairs);
    let mp = member_pairs(pairs);
    pairs_sorted_sorts(raw);
    inverting_shortens(pairs);
    values_are_few(mp, parent);
    inverted_is_distinct(pairs);
    raw.lemma_multiset_has_no_duplicates();
    mp.lemma_multiset_has_no_duplicates_conv();
    values_are_distinct(mp, parent);
    assert forall|child: NodeId| #[trigger]
        values_with(mp, parent).contains(child) <==> pairs.contains((child, parent)) && child
            != parent by {
        values_with_lists(mp, parent, child);
        inverted_is(pairs, parent, child);
    }
}

proof fn linked_pair(pairs: Seq<(NodeId, NodeId)>, links: Map<NodeId, NodeId>, k: NodeId, v: NodeId)
    requires
        lists(pairs, links),
    ensures
        pairs.contains((k, v)) <==> links.contains_key(k) && links[k] == v,
{
    if pairs.contains((k, v)) {
        let i = pairs.index_of((k, v));
        assert(links.contains_key(pairs[i].0));
    }
    if links.contains_key(k) && links[k] == v {
        let i = choose|i: int| 0 <= i < pairs.len() && (#[trigger] pairs[i]).0 == k;
        assert(pairs[i] == (k, v));
    }
}

proof fn table_members_index(
    pairs: Seq<(NodeId, NodeId)>,
    links: Map<NodeId, NodeId>,
    kids: spec_fn(NodeId) -> Seq<NodeId>,
)
    requires
        lists(pairs, links),
        resolved(links),
        pairs.len() < usize::MAX,
        forall|p: NodeId| #[trigger] kids(p) == values_with(member_pairs(pairs), p),
    ensures
        kids_index(links, kids),
        pairs.len() > 0 ==> member_pairs(pairs).len() > 0,
{
    assert forall|k: NodeId| #[trigger]
        links.contains_key(k) implies exists|p: NodeId| #[trigger] kids(p).contains(k) by {
        let p = links[k];
        members_of_a_table(pairs, p);
        linked_pair(pairs, links, k, p);
        assert(kids(p).contains(k));
    }
    assert forall|p: NodeId, k: NodeId| #[trigger] kids(p).contains(k) implies p < k
        && links.contains_key(k) && step_up(links, p) == step_up(links, k) by {
        members_of_a_table(pairs, p);
        linked_pair(pairs, links, k, p);
    }
    assert forall|p: NodeId|
        (#[trigger] kids(p)).no_duplicates() && kids(p).len() < usize::MAX by {
        members_of_a_table(pairs, p);
    }
    if pairs.len() > 0 {
        let (k, v) = pairs[0];
        members_of_a_table(pairs, v);
        assert(pairs.contains((k, v)));
        linked_pair(pairs, links, k, v);
        values_with_lists(member_pairs(pairs), v, k);
    }
}

/// **A base that indexes its tables lists every component**: with such an
/// index a valid base answers downward queries, and answers them truly.
pub proof fn a_served_index_is_valid(b: &PuffinBase)
    requires
        valid_base(b),
        indexes_its_tables(b),
    ensures
        b.member_indexed(),
        valid_member_index(b),
{
    table_members_index(b.shared_pairs(), b.shared_links(), |p: NodeId| b.shared_kids(p));
    assert forall|s: ScopeId|
        kids_index(#[trigger] b.overlay_links(s), |p: NodeId| b.overlay_kids(s, p)) by {
        let t = b.overlay_member_table(s);
        assert(lists(b.overlay_stream(s), b.overlay_links(s)));
        assert(resolved(b.overlay_links(s)));
        assert(b.overlay_pairs(s).len() < usize::MAX);
        assert(reads(t, b.content(), member_pairs(b.overlay_pairs(s))));
        table_members_index(
            b.overlay_pairs(s),
            b.overlay_links(s),
            |p: NodeId| b.overlay_kids(s, p),
        );
    }
    assert forall|s: ScopeId|
        (#[trigger] b.overlay_pairs(s)).len() > 0
    implies b.overlay_member_table(s) is Some by {
        assert(lists(b.overlay_stream(s), b.overlay_links(s)));
        assert(resolved(b.overlay_links(s)));
        assert(reads(b.overlay_member_table(s), b.content(), member_pairs(b.overlay_pairs(s))));
        table_members_index(
            b.overlay_pairs(s),
            b.overlay_links(s),
            |p: NodeId| b.overlay_kids(s, p),
        );
    }
    assert forall|s: ScopeId, p: NodeId, limit: nat| #[trigger]
        b.overlay_some(s, p, limit) == first(b.overlay_kids(s, p), limit) by {
        let t = b.overlay_member_table(s);
        assert(reads(t, b.content(), member_pairs(b.overlay_pairs(s))));
        assert(some_in(t, b.content(), p, limit) == first(
            values_with(member_pairs(b.overlay_pairs(s)), p),
            limit,
        ));
        assert(kids_in(t, b.content(), p) == values_with(member_pairs(b.overlay_pairs(s)), p));
    }
}

/// **A forest compacted with a member index can be listed from disk**: a base
/// opened from the file lists the whole of every component.
pub proof fn compacted_file_lists_the_forest(
    forest: &ScopedForest,
    b: &PuffinBase,
    opts: WriteOptions,
    seq: i64,
    footer: Seq<u8>,
)
    requires
        forest.wf(),
        forest.consistent(),
        opts.member_index,
        b.wf(),
        file_of(
            b.content(),
            collected_tables(forest.stream(true)),
            registry_listing(registry_events(forest.stream(true))),
            opts,
            seq,
            footer,
        ),
        ({
            let metas = metas_of(
                base_blobs(
                    collected_tables(forest.stream(true)),
                    registry_listing(registry_events(forest.stream(true))),
                    opts,
                    seq,
                ),
            );
            b.represents(opened(b.content(), metas)->Ok_0) && b.lists_from(metas)
        }),
    ensures
        b.member_indexed(),
        valid_member_index(b),
        indexes_its_tables(b),
{
    let t = collected_tables(forest.stream(true));
    let raw = registry_events(forest.stream(true));
    let entries = registry_listing(raw);
    compacted_file_serves_the_forest(forest, b, opts, seq, footer);
    forest.collecting_the_stream_captures();
    registry_listing_lists(raw);
    empty_delta_registries(forest, true);
    written_base_is_served(b, t, entries, opts, seq, footer);
    written_members_are_served(b, t, entries, opts, seq, footer);
    a_served_index_is_valid(b);
}

// --- stacks ------------------------------------------------------------------------------------------

/// Every layer answers downwards what it records upwards.
pub open spec fn indexes_its_layers(l: &LayeredBase) -> bool {
    forall|i: int| 0 <= i < l.stack().len() ==> indexes_its_tables(&*(#[trigger] l.stack()[i]))
}

/// No list of children outgrows memory.
pub open spec fn lists_fit(l: &LayeredBase) -> bool {
    forall|level: Option<ScopeId>, p: NodeId|
        (#[trigger] kids_over(l.stack(), level, p)).len() < usize::MAX
}

proof fn layer_reads(l: &LayeredBase, level: Option<ScopeId>, i: int, p: NodeId)
    requires
        indexes_its_layers(l),
        0 <= i < l.stack().len(),
    ensures
        layer_kids(&*l.stack()[i], level, p) == values_with(member_pairs(l.tables(level)[i]), p),
        forall|limit: nat| #[trigger]
            layer_some(&*l.stack()[i], level, p, limit) == first(
                layer_kids(&*l.stack()[i], level, p),
                limit,
            ),
{
    let b = &*l.stack()[i];
    assert(indexes_its_tables(b));
    let (t, pairs) = match level {
        None => (b.shared_member_table(), b.shared_pairs()),
        Some(s) => (b.overlay_member_table(s), b.overlay_pairs(s)),
    };
    assert(l.tables(level)[i] == pairs);
    assert(reads(t, b.content(), member_pairs(pairs)));
    assert(kids_in(t, b.content(), p) == values_with(member_pairs(pairs), p));
    assert forall|limit: nat| #[trigger] layer_some(b, level, p, limit) == first(
        layer_kids(b, level, p),
        limit,
    ) by {
        assert(some_in(t, b.content(), p, limit) == first(
            values_with(member_pairs(pairs), p),
            limit,
        ));
    }
}

/// Layer `i` records `k` below `p`.
spec fn recorded(tables: Seq<Seq<(NodeId, NodeId)>>, i: int, k: NodeId, p: NodeId) -> bool {
    0 <= i < tables.len() && tables[i].contains((k, p))
}

proof fn kids_of_layers(l: &LayeredBase, level: Option<ScopeId>, p: NodeId, n: int)
    requires
        stacked(l.tables(level)),
        indexes_its_layers(l),
        0 <= n <= l.stack().len(),
    ensures
        ({
            let kids = kids_over(l.stack().take(n), level, p);
            &&& kids.no_duplicates()
            &&& forall|k: NodeId| #[trigger]
                kids.contains(k) <==> exists|i: int|
                    i < n && #[trigger] recorded(l.tables(level), i, k, p)
        }),
    decreases n,
{
    let stack = l.stack();
    let tables = l.tables(level);
    let kids = kids_over(stack.take(n), level, p);
    if n > 0 {
        let m = n - 1;
        kids_of_layers(l, level, p, m);
        let before = kids_over(stack.take(m), level, p);
        assert(stack.take(n).drop_last() =~= stack.take(m));
        assert(stack.take(n).last() == stack[m]);
        layer_reads(l, level, m, p);
        let here = layer_kids(&*stack[m], level, p);
        assert(ascending(tables[m]));
        members_of_a_table(tables[m], p);
        assert(kids == before + here);
        assert forall|k: NodeId|
            before.contains(k) && #[trigger] here.contains(k)
        implies false by {
            let i = choose|i: int| i < m && #[trigger] recorded(tables, i, k, p);
            let q = tables[m].index_of((k, p));
            assert(clear_of(tables[i], tables[m][q]));
            let r = tables[i].index_of((k, p));
            assert(tables[i][r].0 == k);
        }
        assert(kids.no_duplicates()) by {
            assert forall|i: int, j: int|
                0 <= i < kids.len() && 0 <= j < kids.len() && i != j
            implies kids[i] != kids[j] by {
                let x = before.len() as int;
                if i < x && j < x {
                    assert(before[i] != before[j]);
                } else if i >= x && j >= x {
                    assert(here[i - x] != here[j - x]);
                } else if i < x {
                    assert(before.contains(before[i]));
                    assert(here.contains(here[j - x]));
                } else {
                    assert(before.contains(before[j]));
                    assert(here.contains(here[i - x]));
                }
            }
        }
        assert forall|k: NodeId| #[trigger]
            kids.contains(k) <==> exists|i: int| i < n && #[trigger] recorded(tables, i, k, p) by {
            if kids.contains(k) {
                let j = kids.index_of(k);
                if j < before.len() {
                    assert(before[j] == k);
                    assert(before.contains(k));
                    let i = choose|i: int| i < m && #[trigger] recorded(tables, i, k, p);
                    assert(i < n && recorded(tables, i, k, p));
                } else {
                    assert(here[j - before.len()] == k);
                    assert(here.contains(k));
                    assert(m < n && recorded(tables, m, k, p));
                }
            }
            if exists|i: int| i < n && #[trigger] recorded(tables, i, k, p) {
                let i = choose|i: int| i < n && #[trigger] recorded(tables, i, k, p);
                if i < m {
                    assert(before.contains(k));
                    let j = before.index_of(k);
                    assert(kids[j] == k);
                } else {
                    let q = tables[m].index_of((k, p));
                    assert(tables[m][q].1 < tables[m][q].0);
                    assert(here.contains(k));
                    let j = here.index_of(k);
                    assert(kids[before.len() + j] == k);
                }
            }
        }
    }
}

proof fn some_of_layers(l: &LayeredBase, level: Option<ScopeId>, p: NodeId, limit: nat, n: int)
    requires
        indexes_its_layers(l),
        0 <= n <= l.stack().len(),
    ensures
        some_over(l.stack().take(n), level, p, limit) == first(
            kids_over(l.stack().take(n), level, p),
            limit,
        ),
    decreases n,
{
    let stack = l.stack();
    if n > 0 {
        let m = n - 1;
        some_of_layers(l, level, p, limit, m);
        assert(stack.take(n).drop_last() =~= stack.take(m));
        assert(stack.take(n).last() == stack[m]);
        layer_reads(l, level, m, p);
        let kids = kids_over(stack.take(m), level, p);
        let before = some_over(stack.take(m), level, p, limit);
        let here = layer_kids(&*stack[m], level, p);
        if before.len() < limit {
            let left = (limit - before.len()) as nat;
            assert(layer_some(&*stack[m], level, p, left) == first(here, left));
            assert(before + first(here, left) =~= first(kids + here, limit));
        } else {
            assert(before =~= first(kids + here, limit));
        }
    }
}

proof fn stack_lists_members(l: &LayeredBase, level: Option<ScopeId>)
    requires
        l.wf(),
        well_stacked(l),
        indexes_its_layers(l),
        lists_fit(l),
    ensures
        kids_index(l.links_at(level), |p: NodeId| kids_over(l.stack(), level, p)),
{
    let tables = l.tables(level);
    let links = l.links_at(level);
    let kids = |p: NodeId| kids_over(l.stack(), level, p);
    let n = l.stack().len() as int;
    let maps = links_of(tables);
    assert(stacked(tables));
    assert(l.stack().take(n) =~= l.stack());
    assert forall|k: NodeId| #[trigger]
        links.contains_key(k) implies exists|p: NodeId| #[trigger] kids(p).contains(k) by {
        keys_lead_elsewhere(tables, k);
        let i = choose|i: int| 0 <= i < tables.len() && #[trigger] has_key(tables[i], k);
        let q = choose|q: int| 0 <= q < tables[i].len() && (#[trigger] tables[i][q]).0 == k;
        let p = tables[i][q].1;
        assert(tables[i].contains((k, p)));
        assert(i < n && recorded(tables, i, k, p));
        kids_of_layers(l, level, p, n);
        assert(kids(p).contains(k));
    }
    assert forall|p: NodeId, k: NodeId| #[trigger] kids(p).contains(k) implies p < k
        && links.contains_key(k) && step_up(links, p) == step_up(links, k) by {
        kids_of_layers(l, level, p, n);
        let i = choose|i: int| i < n && #[trigger] recorded(tables, i, k, p);
        let q = tables[i].index_of((k, p));
        assert(tables[i][q].1 < tables[i][q].0);
        a_key_leads_where_its_parent_leads(tables, i, q);
    }
    assert forall|p: NodeId|
        (#[trigger] kids(p)).no_duplicates() && kids(p).len() < usize::MAX by {
        kids_of_layers(l, level, p, n);
        assert(kids_over(l.stack(), level, p).len() < usize::MAX);
    }
}

/// **A stack lists what its layers list**: where every layer indexes its
/// tables, the stack answers downward queries, and answers them truly, whatever
/// newer layers did to a parent that an older one records.
pub proof fn a_stack_of_indexes_is_valid(l: &LayeredBase)
    requires
        l.wf(),
        well_stacked(l),
        indexes_its_layers(l),
        lists_fit(l),
    ensures
        l.member_indexed(),
        valid_member_index(l),
{
    let n = l.stack().len() as int;
    assert(l.stack().take(n) =~= l.stack());
    stack_lists_members(l, None);
    assert((|p: NodeId| kids_over(l.stack(), None, p)) =~= (|p: NodeId| l.shared_kids(p)));
    assert forall|s: ScopeId|
        kids_index(#[trigger] l.overlay_links(s), |p: NodeId| l.overlay_kids(s, p)) by {
        stack_lists_members(l, Some(s));
        assert((|p: NodeId| kids_over(l.stack(), Some(s), p)) =~= (|p: NodeId|
            l.overlay_kids(s, p)));
    }
    assert forall|p: NodeId, limit: nat| #[trigger]
        l.shared_some(p, limit) == first(l.shared_kids(p), limit) by {
        some_of_layers(l, None, p, limit, n);
    }
    assert forall|s: ScopeId, p: NodeId, limit: nat| #[trigger]
        l.overlay_some(s, p, limit) == first(l.overlay_kids(s, p), limit) by {
        some_of_layers(l, Some(s), p, limit, n);
    }
    assert forall|i: int| 0 <= i < n implies (#[trigger] l.stack()[i]).member_indexed() by {
        layer_is_indexed(l, i);
    }
}

proof fn layer_is_indexed(l: &LayeredBase, i: int)
    requires
        well_stacked(l),
        indexes_its_layers(l),
        0 <= i < l.stack().len(),
    ensures
        l.stack()[i].member_indexed(),
{
    let b = l.stack()[i];
    assert(indexes_its_tables(&*b));
    assert(stacked(l.tables(None)));
    layer_has_members(l.tables(None), i);
    assert forall|s: ScopeId|
        (#[trigger] b.overlay_pairs(s)).len() > 0
    implies b.overlay_member_table(s) is Some by {
        assert(stacked(l.tables(Some(s))));
        layer_has_members(l.tables(Some(s)), i);
    }
}

proof fn layer_has_members(tables: Seq<Seq<(NodeId, NodeId)>>, i: int)
    requires
        stacked(tables),
        0 <= i < tables.len(),
    ensures
        tables[i].len() > 0 ==> member_pairs(tables[i]).len() > 0,
{
    if tables[i].len() > 0 {
        let (k, v) = tables[i][0];
        assert(ascending(tables[i]));
        assert(tables[i][0].1 < tables[i][0].0);
        assert(tables[i].contains((k, v)));
        members_of_a_table(tables[i], v);
        values_with_lists(member_pairs(tables[i]), v, k);
    }
}

/// The lists of one layer fit.
pub proof fn one_layer_fits(l: &LayeredBase)
    requires
        l.stack().len() == 1,
        well_stacked(l),
        indexes_its_layers(l),
    ensures
        lists_fit(l),
{
    assert forall|level: Option<ScopeId>, p: NodeId|
        (#[trigger] kids_over(l.stack(), level, p)).len() < usize::MAX by {
        let stack = l.stack();
        let b = stack[0];
        assert(indexes_its_tables(&*b));
        assert(stacked(l.tables(level)));
        assert(ascending(l.tables(level)[0]));
        layer_reads(l, level, 0, p);
        members_of_a_table(l.tables(level)[0], p);
        assert(stack.drop_last() =~= Seq::empty());
        assert(kids_over(stack.drop_last(), level, p) =~= Seq::empty());
        assert(kids_over(stack, level, p) =~= layer_kids(&*b, level, p));
        match level {
            None => {},
            Some(s) => {
                assert(b.overlay_pairs(s).len() < usize::MAX);
            },
        }
    }
}

} // verus!
