//! Member indexes inside a mapping: which nodes are recorded directly below
//! another.

use std::collections::BTreeMap;
use vstd::prelude::*;

use super::base::{table_at, PairTable};
use super::blocks::parse_error;
use super::codec::{named_scope, scope_named, CodecError};
use super::members::{
    BlockedMembers, OVERLAY_BLOCKED_BLOB_TYPE, OVERLAY_FLAT_BLOB_TYPE, SHARED_BLOCKED_BLOB_TYPE,
    SHARED_FLAT_BLOB_TYPE,
};
use super::puffin::{meta_views, BlobMetadata, MetaView};
use super::table::get_pair;
use crate::graph::base::first;
use crate::graph::types::{NodeId, ScopeId};
use crate::text::same_text;

verus! {

broadcast use vstd::std_specs::btree::group_btree_axioms;

/// Where a binary search between `lo` and `hi` puts the first pair of `parent`.
pub open spec fn first_of(pairs: Seq<(NodeId, NodeId)>, lo: int, hi: int, parent: NodeId) -> int
    decreases hi - lo,
{
    if lo >= hi {
        lo
    } else {
        let mid = lo + (hi - lo) / 2;
        if pairs[mid].0 < parent {
            first_of(pairs, mid + 1, hi, parent)
        } else {
            first_of(pairs, lo, mid, parent)
        }
    }
}

/// The children of the run of pairs of `parent` that starts at `i`.
pub open spec fn child_run(pairs: Seq<(NodeId, NodeId)>, i: int, parent: NodeId) -> Seq<NodeId>
    decreases pairs.len() - i,
{
    if 0 <= i < pairs.len() && pairs[i].0 == parent {
        seq![pairs[i].1] + child_run(pairs, i + 1, parent)
    } else {
        Seq::empty()
    }
}

/// Where a member index is.
pub ghost enum MembersAt {
    Flat(PairTable),
    Blocked(int),
}

/// A member index inside the mapping.
#[derive(Debug)]
pub enum MemberTable {
    /// A `(parent, child)` table, sorted by parent.
    Flat(PairTable),
    /// A blocked index.
    Blocked(BlockedMembers),
}

impl MemberTable {
    /// The index lies inside a mapping of `len` bytes.
    pub open spec fn inside(&self, len: nat) -> bool {
        match self {
            MemberTable::Flat(t) => t.inside(len),
            MemberTable::Blocked(m) => m.index.fits(len),
        }
    }

    /// This is the index at `at`.
    pub open spec fn is_at(&self, data: Seq<u8>, at: MembersAt) -> bool {
        match at {
            MembersAt::Flat(t) => *self == MemberTable::Flat(t),
            MembersAt::Blocked(start) => self matches MemberTable::Blocked(m)
                && m.index.describes(data, start),
        }
    }

    /// The nodes recorded directly below `parent`.
    pub open spec fn kids(&self, data: Seq<u8>, parent: NodeId) -> Seq<NodeId> {
        match self {
            MemberTable::Flat(t) => {
                let pairs = t.pairs(data);
                child_run(pairs, first_of(pairs, 0, pairs.len() as int, parent), parent)
            },
            MemberTable::Blocked(m) => m.answer(data, parent, m.index.count as nat),
        }
    }

    /// What a query for at most `limit` of them answers.
    pub open spec fn some(&self, data: Seq<u8>, parent: NodeId, limit: nat) -> Seq<NodeId> {
        match self {
            MemberTable::Flat(_) => first(self.kids(data, parent), limit),
            MemberTable::Blocked(m) => m.answer(data, parent, limit),
        }
    }

    /// Heap held to read the index.
    pub open spec fn heap(&self) -> u64 {
        match self {
            MemberTable::Flat(_) => 0,
            MemberTable::Blocked(m) => m.index.heap() as u64,
        }
    }

    /// Heap held to read the index.
    pub fn heap_bytes(&self) -> (n: u64)
        requires
            exists|len: nat| #[trigger] self.inside(len),
        ensures
            n == self.heap(),
    {
        match self {
            MemberTable::Flat(_) => 0,
            MemberTable::Blocked(m) => {
                proof {
                    let len = choose|len: nat| #[trigger] self.inside(len);
                    assert(m.index.fits(len));
                }
                m.heap_bytes()
            },
        }
    }

    /// Appends at most `limit` of the nodes recorded directly below `parent`.
    /// Reading stops at the limit.
    pub fn children(&self, data: &[u8], parent: NodeId, limit: usize, out: &mut Vec<NodeId>)
        requires
            self.inside(data@.len()),
        ensures
            final(out)@ == old(out)@ + self.some(data@, parent, limit as nat),
            final(out)@.len() <= old(out)@.len() + limit,
    {
        match self {
            MemberTable::Blocked(m) => m.children_of(data, parent, limit, out),
            MemberTable::Flat(t) => flat_children(*t, data, parent, limit, out),
        }
    }
}

/// What the index `t` lists below `parent`; nothing where there is none.
pub open spec fn kids_in(t: Option<MemberTable>, data: Seq<u8>, parent: NodeId) -> Seq<NodeId> {
    match t {
        Some(table) => table.kids(data, parent),
        None => Seq::empty(),
    }
}

/// What a query of the index `t` for at most `limit` of them answers.
pub open spec fn some_in(
    t: Option<MemberTable>,
    data: Seq<u8>,
    parent: NodeId,
    limit: nat,
) -> Seq<NodeId> {
    match t {
        Some(table) => table.some(data, parent, limit),
        None => Seq::empty(),
    }
}

/// Heap held to read the index `t`.
pub open spec fn heap_of(t: Option<MemberTable>) -> u64 {
    match t {
        Some(table) => table.heap(),
        None => 0,
    }
}

fn flat_children(t: PairTable, data: &[u8], parent: NodeId, limit: usize, out: &mut Vec<NodeId>)
    requires
        t.inside(data@.len()),
    ensures
        final(out)@ == old(out)@ + MemberTable::Flat(t).some(data@, parent, limit as nat),
        final(out)@.len() <= old(out)@.len() + limit,
{
    let ghost pairs = t.pairs(data@);
    let mut lo: usize = 0;
    let mut hi: usize = t.count;
    while lo < hi
        invariant
            lo <= hi <= t.count,
            t.inside(data@.len()),
            pairs == t.pairs(data@),
            first_of(pairs, lo as int, hi as int, parent) == first_of(
                pairs,
                0,
                t.count as int,
                parent,
            ),
        decreases hi - lo,
    {
        let mid: usize = lo + (hi - lo) / 2;
        let (key, value): (NodeId, NodeId) = get_pair(data, t.at, mid);
        assert(pairs[mid as int] == (key, value));
        if key < parent {
            lo = mid + 1;
        } else {
            hi = mid;
        }
    }
    let ghost before = out@;
    let ghost all = child_run(pairs, lo as int, parent);
    let mut i: usize = lo;
    let mut taken: usize = 0;
    proof {
        run_is_short(pairs, lo as int, parent);
        assert(all.take(0) =~= Seq::empty());
        assert(out@ =~= before + all.take(0));
        assert(all.skip(0) =~= all);
    }
    assert(pairs.len() == t.count);
    while taken < limit && i < t.count
        invariant_except_break
            child_run(pairs, i as int, parent) == all.skip(taken as int),
            i >= t.count ==> taken == all.len(),
        invariant
            i <= t.count,
            pairs.len() == t.count,
            t.inside(data@.len()),
            pairs == t.pairs(data@),
            taken <= limit,
            taken <= all.len(),
            all.len() <= usize::MAX,
            out@ == before + all.take(taken as int),
        ensures
            taken == limit || taken == all.len(),
        decreases t.count - i,
    {
        let (key, value): (NodeId, NodeId) = get_pair(data, t.at, i);
        assert(pairs[i as int] == (key, value));
        if key != parent {
            assert(all.skip(taken as int).len() == 0);
            break ;
        }
        proof {
            let rest = all.skip(taken as int);
            assert(rest == seq![value] + child_run(pairs, i + 1, parent));
            assert(rest[0] == value);
            assert(all[taken as int] == value);
            assert(all.skip(taken + 1) =~= rest.skip(1));
            assert(rest.skip(1) =~= child_run(pairs, i + 1, parent));
            assert(all.take(taken + 1) =~= all.take(taken as int).push(value));
        }
        out.push(value);
        taken += 1;
        i += 1;
        assert(out@ =~= before + all.take(taken as int));
        if i >= t.count {
            assert(child_run(pairs, i as int, parent).len() == 0);
            assert(all.skip(taken as int).len() == all.len() - taken);
        }
    }
    assert(all.take(taken as int) =~= first(all, limit as nat));
}

proof fn run_is_short(pairs: Seq<(NodeId, NodeId)>, i: int, parent: NodeId)
    requires
        0 <= i <= pairs.len(),
    ensures
        child_run(pairs, i, parent).len() <= pairs.len() - i,
    decreases pairs.len() - i,
{
    if i < pairs.len() && pairs[i].0 == parent {
        run_is_short(pairs, i + 1, parent);
    }
}

// --- finding them ------------------------------------------------------------------------------------

/// The member index that the blob `m` is, by the two types it may have. One
/// whose payload is malformed is passed over: a base without an index is
/// recoverable where one that does not open is not.
pub open spec fn member_at(
    data: Seq<u8>,
    m: MetaView,
    flat: Seq<char>,
    blocked: Seq<char>,
) -> Option<MembersAt> {
    if m.blob_type == flat {
        match table_at(data, m, 16) {
            Ok(t) => Some(MembersAt::Flat(t)),
            Err(_) => None,
        }
    } else if m.blob_type == blocked {
        match parse_error(data, m.offset as int, m.offset + m.length) {
            None => Some(MembersAt::Blocked(m.offset as int)),
            Some(_) => None,
        }
    } else {
        None
    }
}

pub open spec fn shared_member_at(data: Seq<u8>, m: MetaView) -> Option<MembersAt> {
    member_at(data, m, SHARED_FLAT_BLOB_TYPE@, SHARED_BLOCKED_BLOB_TYPE@)
}

pub open spec fn overlay_member_at(data: Seq<u8>, m: MetaView, scope: ScopeId) -> Option<
    MembersAt,
> {
    if named_scope(m.properties) == Ok::<ScopeId, CodecError>(scope) {
        member_at(data, m, OVERLAY_FLAT_BLOB_TYPE@, OVERLAY_BLOCKED_BLOB_TYPE@)
    } else {
        None
    }
}

/// Where the shared tier's member index is; of several, the last.
pub open spec fn shared_members_at(data: Seq<u8>, metas: Seq<MetaView>) -> Option<MembersAt>
    decreases metas.len(),
{
    if metas.len() == 0 {
        None
    } else {
        match shared_member_at(data, metas.last()) {
            Some(at) => Some(at),
            None => shared_members_at(data, metas.drop_last()),
        }
    }
}

/// Where the member index of `scope`'s overlay is; of several, the last.
pub open spec fn overlay_members_at(
    data: Seq<u8>,
    metas: Seq<MetaView>,
    scope: ScopeId,
) -> Option<MembersAt>
    decreases metas.len(),
{
    if metas.len() == 0 {
        None
    } else {
        match overlay_member_at(data, metas.last(), scope) {
            Some(at) => Some(at),
            None => overlay_members_at(data, metas.drop_last(), scope),
        }
    }
}

/// `t` is the index at `at`, where there is one.
pub open spec fn is_there(t: Option<MemberTable>, data: Seq<u8>, at: Option<MembersAt>) -> bool {
    match at {
        None => t is None,
        Some(a) => t matches Some(table) && table.is_at(data, a) && table.inside(data.len()),
    }
}

pub open spec fn entry_of(m: Map<ScopeId, MemberTable>, scope: ScopeId) -> Option<MemberTable> {
    if m.contains_key(scope) {
        Some(m[scope])
    } else {
        None
    }
}

fn read_member(data: &[u8], meta: &BlobMetadata, flat: &str, blocked: &str) -> (r: Option<
    MemberTable,
>)
    requires
        meta.inside(data@.len()),
    ensures
        is_there(r, data@, member_at(data@, meta@, flat@, blocked@)),
{
    let kind = meta.blob_type.as_str();
    let total: usize = data.len();
    assert(meta.inside(total as nat));
    if same_text(kind, flat) {
        match PairTable::parse(data, meta.range()) {
            Ok(t) => Some(MemberTable::Flat(t)),
            Err(_) => None,
        }
    } else if same_text(kind, blocked) {
        match BlockedMembers::parse(data, meta.range()) {
            Ok(m) => Some(MemberTable::Blocked(m)),
            Err(_) => None,
        }
    } else {
        None
    }
}

/// The member indexes of the file `data`, whose footer says `index`.
pub fn read_members(data: &[u8], index: &[BlobMetadata]) -> (r: (
    Option<MemberTable>,
    BTreeMap<ScopeId, MemberTable>,
))
    requires
        forall|j: int| 0 <= j < index@.len() ==> (#[trigger] index@[j]).inside(data@.len()),
    ensures
        is_there(r.0, data@, shared_members_at(data@, meta_views(index@))),
        forall|s: ScopeId|
            is_there(
                #[trigger] entry_of(r.1@, s),
                data@,
                overlay_members_at(data@, meta_views(index@), s),
            ),
{
    let mut shared: Option<MemberTable> = None;
    let mut overlays: BTreeMap<ScopeId, MemberTable> = BTreeMap::new();
    let ghost metas = meta_views(index@);
    let mut i: usize = 0;
    while i < index.len()
        invariant
            i <= index@.len(),
            metas == meta_views(index@),
            forall|j: int| 0 <= j < index@.len() ==> (#[trigger] index@[j]).inside(data@.len()),
            is_there(shared, data@, shared_members_at(data@, metas.take(i as int))),
            forall|s: ScopeId|
                is_there(
                    #[trigger] entry_of(overlays@, s),
                    data@,
                    overlay_members_at(data@, metas.take(i as int), s),
                ),
        decreases index@.len() - i,
    {
        let meta = &index[i];
        assert(index@[i as int].inside(data@.len()));
        proof {
            assert(metas.take(i + 1).drop_last() =~= metas.take(i as int));
            assert(metas.take(i + 1).last() == meta@);
        }
        if let Some(t) = read_member(data, meta, SHARED_FLAT_BLOB_TYPE, SHARED_BLOCKED_BLOB_TYPE) {
            shared = Some(t);
        }
        let ghost before = overlays@;
        let found = read_member(data, meta, OVERLAY_FLAT_BLOB_TYPE, OVERLAY_BLOCKED_BLOB_TYPE);
        match (found, scope_named(&meta.properties)) {
            (Some(t), Ok(scope)) => {
                overlays.insert(scope, t);
                assert forall|s: ScopeId|
                    is_there(
                        #[trigger] entry_of(overlays@, s),
                        data@,
                        overlay_members_at(data@, metas.take(i + 1), s),
                    ) by {
                    if s != scope {
                        assert(entry_of(overlays@, s) == entry_of(before, s));
                    }
                }
            },
            _ => {
                assert forall|s: ScopeId|
                    is_there(
                        #[trigger] entry_of(overlays@, s),
                        data@,
                        overlay_members_at(data@, metas.take(i + 1), s),
                    ) by {
                    assert(entry_of(overlays@, s) == entry_of(before, s));
                }
            },
        }
        i += 1;
    }
    assert(metas.take(i as int) =~= metas);
    (shared, overlays)
}

} // verus!
