//! Mapped routing base: serve committed DSU state from a Puffin file on local
//! disk instead of the heap.
//!
//! The payloads are sorted, fixed-stride `(node, root)` tables, which makes
//! them directly usable as an on-disk index: map the file once, then answer a
//! lookup with a binary search over a byte range. Nothing is deserialized at
//! load time, so opening a base is O(number of blobs), not O(pairs).

use std::collections::BTreeMap;
use std::ops::Range;
use vstd::prelude::*;

use super::blocks::{parse_error, BlockCursor, BlockError};
use super::codec::{
    entry_at, named_scope, scope_named, CodecError, GLOBAL_BLOB_TYPE, SCOPE_BLOB_TYPE,
};
use super::descent::{
    entry_of, heap_of, is_there, kids_in, overlay_members_at, read_members, shared_members_at,
    some_in, MemberTable,
};
use super::payload::{payload_content, slice_of};
use super::puffin::{check_ranges, meta_views, range_error, BlobMetadata, MetaView, PuffinError};
use super::registry::{BlockedRegistry, BLOCKED_BLOB_TYPE, FLAT_BLOB_TYPE};
use super::sorted::{list_registry, registry_listing};
use super::table::{get_pair, pairs_at, table_count, table_error, TableError};
use super::wire::{get_u32_le, get_u64_le, u64_at};
use crate::graph::base::{step_up, BaseStats, PairCursor, RoutingBase};
use crate::graph::snapshot::ScopePairs;
use crate::graph::types::{NodeId, ScopeId, ScopeList};
use crate::text::same_text;

verus! {

broadcast use vstd::std_specs::btree::group_btree_axioms;

/// Why a file is not a routing base.
#[derive(Debug, Clone, Copy, PartialEq, Eq, Structural)]
pub enum BaseError {
    /// A blob does not lie inside the file.
    File(PuffinError),
    /// A pair table is malformed.
    Pairs(TableError),
    /// A flat registry is malformed.
    Registry(TableError),
    /// A blocked registry is malformed.
    Blocks(BlockError),
    /// A scope's blob does not name its scope.
    Scope(CodecError),
}

// --- pair tables ---------------------------------------------------------------------------

/// A `(u64 node, u64 root)` table inside the mapping.
#[derive(Debug, Clone, Copy, PartialEq, Eq, Structural)]
pub struct PairTable {
    /// Offset of the table's count header.
    pub at: usize,
    pub count: usize,
}

/// The value that a binary search for `node` between `lo` and `hi` finds. In a
/// table with ascending keys, the one that is recorded for it.
pub open spec fn searched(pairs: Seq<(NodeId, NodeId)>, lo: int, hi: int, node: NodeId) -> Option<
    NodeId,
>
    decreases hi - lo,
{
    if lo >= hi {
        None
    } else {
        let mid = lo + (hi - lo) / 2;
        if pairs[mid].0 == node {
            Some(pairs[mid].1)
        } else if pairs[mid].0 < node {
            searched(pairs, mid + 1, hi, node)
        } else {
            searched(pairs, lo, mid, node)
        }
    }
}

/// The links that lookups in a table of `pairs` answer.
pub open spec fn table_links(pairs: Seq<(NodeId, NodeId)>) -> Map<NodeId, NodeId> {
    Map::new(
        |k: NodeId| searched(pairs, 0, pairs.len() as int, k) is Some,
        |k: NodeId| searched(pairs, 0, pairs.len() as int, k)->0,
    )
}

impl PairTable {
    /// The table lies inside a mapping of `len` bytes.
    pub open spec fn inside(&self, len: nat) -> bool {
        self.at + 8 + 16 * self.count <= len
    }

    pub open spec fn pairs(&self, data: Seq<u8>) -> Seq<(NodeId, NodeId)> {
        pairs_at(data, self.at as int, self.count as nat)
    }

    /// Opens the table that is at `range`.
    pub fn parse(data: &[u8], range: Range<usize>) -> (r: Result<PairTable, TableError>)
        requires
            range.start <= range.end <= data@.len(),
        ensures
            match r {
                Ok(t) => {
                    &&& table_error(data@, range.start as int, range.end as int, 16) is None
                    &&& t.at == range.start
                    &&& t.count == u64_at(data@, range.start as int)
                    &&& t.inside(data@.len())
                },
                Err(e) => table_error(data@, range.start as int, range.end as int, 16) == Some(e),
            },
    {
        match table_count(data, range.start, range.end, 16) {
            Ok(count) => Ok(PairTable { at: range.start, count }),
            Err(e) => Err(e),
        }
    }

    /// Binary search over the sorted keys.
    pub fn lookup(&self, data: &[u8], node: NodeId) -> (r: Option<NodeId>)
        requires
            self.inside(data@.len()),
        ensures
            r == searched(self.pairs(data@), 0, self.count as int, node),
    {
        let ghost pairs = self.pairs(data@);
        let mut lo: usize = 0;
        let mut hi: usize = self.count;
        while lo < hi
            invariant
                lo <= hi <= self.count,
                self.inside(data@.len()),
                pairs == self.pairs(data@),
                searched(pairs, lo as int, hi as int, node) == searched(
                    pairs,
                    0,
                    self.count as int,
                    node,
                ),
            decreases hi - lo,
        {
            let mid: usize = lo + (hi - lo) / 2;
            let (key, value): (NodeId, NodeId) = get_pair(data, self.at, mid);
            assert(pairs[mid as int] == (key, value));
            if key == node {
                return Some(value);
            } else if key < node {
                lo = mid + 1;
            } else {
                hi = mid;
            }
        }
        None
    }
}

// --- registries ------------------------------------------------------------------------------

/// Where a binary search between `lo` and `hi` puts the first entry of `root`.
pub open spec fn lower_bound(
    entries: Seq<(NodeId, ScopeId)>,
    lo: int,
    hi: int,
    root: NodeId,
) -> int
    decreases hi - lo,
{
    if lo >= hi {
        lo
    } else {
        let mid = lo + (hi - lo) / 2;
        if entries[mid].0 < root {
            lower_bound(entries, mid + 1, hi, root)
        } else {
            lower_bound(entries, lo, mid, root)
        }
    }
}

/// The scopes of the run of entries of `root` that starts at `i`.
pub open spec fn scope_run(entries: Seq<(NodeId, ScopeId)>, i: int, root: NodeId) -> Seq<ScopeId>
    decreases entries.len() - i,
{
    if 0 <= i < entries.len() && entries[i].0 == root {
        seq![entries[i].1] + scope_run(entries, i + 1, root)
    } else {
        Seq::empty()
    }
}

/// How a base answers which scopes are registered on a root.
#[derive(Debug)]
pub enum RegistryIndex {
    /// A flat table inside the mapping.
    Flat(PairTable),
    /// A blocked index inside the mapping.
    Blocked(BlockedRegistry),
    /// Rebuilt in memory, for a file that has overlays and no registry blob.
    Rebuilt(Vec<(NodeId, ScopeId)>),
}

impl RegistryIndex {
    pub open spec fn inside(&self, len: nat) -> bool {
        match self {
            RegistryIndex::Flat(t) => t.at + 8 + 12 * t.count <= len,
            RegistryIndex::Blocked(reg) => reg.index.fits(len),
            RegistryIndex::Rebuilt(_) => true,
        }
    }

    /// Every entry, in order.
    pub open spec fn entries(&self, data: Seq<u8>) -> Seq<(NodeId, ScopeId)> {
        match self {
            RegistryIndex::Flat(t) => Seq::new(
                t.count as nat,
                |i: int| entry_at(data, t.at as int, i),
            ),
            RegistryIndex::Blocked(reg) => reg.walk(data),
            RegistryIndex::Rebuilt(v) => v@,
        }
    }

    /// The scopes that a lookup of `root` answers.
    pub open spec fn answer(&self, data: Seq<u8>, root: NodeId) -> Seq<ScopeId> {
        match self {
            RegistryIndex::Blocked(reg) => reg.answer(data, root),
            _ => {
                let e = self.entries(data);
                scope_run(e, lower_bound(e, 0, e.len() as int, root), root)
            },
        }
    }

    /// How many entries there are by position.
    fn len(&self) -> (n: usize)
        ensures
            match self {
                RegistryIndex::Flat(t) => n == t.count,
                RegistryIndex::Blocked(_) => n == 0,
                RegistryIndex::Rebuilt(v) => n == v@.len(),
            },
    {
        match self {
            RegistryIndex::Flat(t) => t.count,
            RegistryIndex::Blocked(_) => 0,
            RegistryIndex::Rebuilt(v) => v.len(),
        }
    }

    /// Entry `i`.
    fn entry(&self, data: &[u8], i: usize) -> (e: (NodeId, ScopeId))
        requires
            self.inside(data@.len()),
            !(self is Blocked),
            i < self.entries(data@).len(),
        ensures
            e == self.entries(data@)[i as int],
    {
        match self {
            RegistryIndex::Flat(t) => {
                let len: usize = data.len();
                let at: usize = t.at + 8 + 12 * i;
                (get_u64_le(data, at), get_u32_le(data, at + 8))
            },
            RegistryIndex::Blocked(_) => (0, 0),
            RegistryIndex::Rebuilt(v) => v[i],
        }
    }

    /// All scopes recorded for `root`: in a fixed-stride registry a
    /// lower-bound search, then a scan of the run.
    pub fn scopes_for(&self, data: &[u8], root: NodeId) -> (l: ScopeList)
        requires
            self.inside(data@.len()),
        ensures
            l@ == self.answer(data@, root),
    {
        if let RegistryIndex::Blocked(reg) = self {
            return reg.scopes_for(data, root);
        }
        let n: usize = self.len();
        let ghost e = self.entries(data@);
        let mut lo: usize = 0;
        let mut hi: usize = n;
        while lo < hi
            invariant
                lo <= hi <= n,
                n == e.len(),
                e == self.entries(data@),
                self.inside(data@.len()),
                !(self is Blocked),
                lower_bound(e, lo as int, hi as int, root) == lower_bound(e, 0, n as int, root),
            decreases hi - lo,
        {
            let mid: usize = lo + (hi - lo) / 2;
            if self.entry(data, mid).0 < root {
                lo = mid + 1;
            } else {
                hi = mid;
            }
        }
        let mut out: Vec<ScopeId> = Vec::new();
        let mut i: usize = lo;
        let ghost all = scope_run(e, lo as int, root);
        assert(out@ + scope_run(e, i as int, root) =~= all);
        while i < n && self.entry(data, i).0 == root
            invariant
                i <= n,
                n == e.len(),
                e == self.entries(data@),
                self.inside(data@.len()),
                !(self is Blocked),
                out@ + scope_run(e, i as int, root) == all,
            decreases n - i,
        {
            let ghost was = out@;
            out.push(self.entry(data, i).1);
            assert(was + scope_run(e, i as int, root) =~= out@ + scope_run(e, i + 1, root));
            i += 1;
        }
        assert(out@ =~= all);
        ScopeList::from_vec(out)
    }

    /// What is left of the entries from `c` on.
    pub open spec fn rest(&self, data: Seq<u8>, c: RegistryCursor) -> Seq<(NodeId, ScopeId)> {
        match self {
            RegistryIndex::Blocked(reg) => super::registry::registry_entries(
                reg.index.entries_from(data, c.block),
            ),
            _ => {
                let e = self.entries(data);
                if c.position <= e.len() {
                    e.skip(c.position as int)
                } else {
                    Seq::empty()
                }
            },
        }
    }

    /// The start of the entries.
    pub fn start(&self) -> (c: RegistryCursor)
        ensures
            forall|data: Seq<u8>| #[trigger] self.rest(data, c) == self.entries(data),
    {
        let block = BlockCursor {
            block: 0,
            at: 0,
            records: 0,
            key: 0,
            first: true,
            values: 0,
            value: 0,
        };
        let c = RegistryCursor { position: 0, block };
        assert forall|data: Seq<u8>| #[trigger] self.rest(data, c) == self.entries(data) by {
            if !(self is Blocked) {
                assert(self.rest(data, c) =~= self.entries(data));
            }
        }
        c
    }

    /// The next entry, with the cursor moved past it.
    pub fn next(&self, data: &[u8], c: &mut RegistryCursor) -> (r: Option<(NodeId, ScopeId)>)
        requires
            self.inside(data@.len()),
        ensures
            (r is None) == (self.rest(data@, *old(c)).len() == 0),
            r matches Some(e) ==> e == self.rest(data@, *old(c)).first() && self.rest(
                data@,
                *final(c),
            ) == self.rest(data@, *old(c)).drop_first(),
    {
        if let RegistryIndex::Blocked(reg) = self {
            let ghost before = reg.index.entries_from(data@, c.block);
            return match reg.index.next(data, &mut c.block) {
                None => None,
                Some(e) => {
                    assert(super::registry::registry_entries(before.drop_first())
                        =~= super::registry::registry_entries(before).drop_first());
                    Some((e.0, e.1 as ScopeId))
                },
            };
        }
        let n: usize = self.len();
        assert(n == self.entries(data@).len());
        if c.position >= n {
            return None;
        }
        let e = self.entry(data, c.position);
        let ghost rest = self.rest(data@, *c);
        c.position = c.position + 1;
        assert(self.rest(data@, *c) =~= rest.drop_first());
        Some(e)
    }
}

/// A place in the entries of a registry.
#[derive(Debug, Clone, Copy)]
pub struct RegistryCursor {
    pub position: usize,
    pub block: BlockCursor,
}

// --- the base ----------------------------------------------------------------------------------

/// The table of one scope's overlay.
#[derive(Debug, Clone, Copy, PartialEq, Eq, Structural)]
pub struct OverlayTable {
    pub scope: ScopeId,
    pub table: PairTable,
}

/// The table of `scope`.
pub open spec fn table_of(overlays: Seq<OverlayTable>, scope: ScopeId) -> Option<PairTable>
    decreases overlays.len(),
{
    if overlays.len() == 0 {
        None
    } else if overlays.last().scope == scope {
        Some(overlays.last().table)
    } else {
        table_of(overlays.drop_last(), scope)
    }
}

/// The tables come in ascending scope order.
pub open spec fn overlays_ascend(overlays: Seq<OverlayTable>) -> bool {
    forall|i: int, j: int|
        0 <= i < j < overlays.len() ==> (#[trigger] overlays[i]).scope < (
        #[trigger] overlays[j]).scope
}

proof fn table_of_finds(overlays: Seq<OverlayTable>, scope: ScopeId)
    requires
        overlays_ascend(overlays),
    ensures
        forall|i: int|
            0 <= i < overlays.len() && (#[trigger] overlays[i]).scope == scope ==> table_of(
                overlays,
                scope,
            ) == Some(overlays[i].table),
        (forall|i: int| 0 <= i < overlays.len() ==> (#[trigger] overlays[i]).scope != scope)
            ==> table_of(overlays, scope) is None,
        table_of(overlays, scope) matches Some(t) ==> exists|i: int|
            0 <= i < overlays.len() && #[trigger] overlays[i] == (OverlayTable { scope, table: t }),
    decreases overlays.len(),
{
    if overlays.len() > 0 {
        let front = overlays.drop_last();
        let n = overlays.len() - 1;
        assert forall|i: int, j: int| 0 <= i < j < front.len() implies (#[trigger] front[i]).scope
            < (#[trigger] front[j]).scope by {
            assert(overlays[i].scope < overlays[j].scope);
        }
        table_of_finds(front, scope);
        assert forall|i: int|
            0 <= i < overlays.len() && (#[trigger] overlays[i]).scope == scope implies table_of(
            overlays,
            scope,
        ) == Some(overlays[i].table) by {
            if i < n {
                assert(overlays[i].scope < overlays[n].scope);
                assert(front[i] == overlays[i]);
            }
        }
        if forall|i: int| 0 <= i < overlays.len() ==> (#[trigger] overlays[i]).scope != scope {
            assert(overlays[n].scope != scope);
            assert forall|i: int| 0 <= i < front.len() implies (#[trigger] front[i]).scope
                != scope by {
                assert(overlays[i].scope != scope);
            }
        }
        if let Some(t) = table_of(overlays, scope) {
            if overlays.last().scope == scope {
                assert(overlays[n] == (OverlayTable { scope, table: t }));
            } else {
                let i = choose|i: int|
                    0 <= i < front.len() && #[trigger] front[i] == (OverlayTable { scope, table: t });
                assert(overlays[i] == (OverlayTable { scope, table: t }));
            }
        }
    }
}

/// A scope has a table where the tables list it.
pub proof fn listed_where_tabled(overlays: Seq<OverlayTable>, scope: ScopeId)
    requires
        overlays_ascend(overlays),
    ensures
        table_of(overlays, scope) is Some <==> exists|i: int|
            0 <= i < overlays.len() && (#[trigger] overlays[i]).scope == scope,
{
    table_of_finds(overlays, scope);
}

/// The registry of a well-formed base lies inside the mapping.
pub proof fn registry_is_inside(b: &PuffinBase)
    requires
        b.wf(),
    ensures
        b.registry_index() matches Some(r) ==> r.inside(b.content().len()),
{
}

/// Where a file's registry is.
pub ghost enum RegistryAt {
    Flat(PairTable),
    Blocked(int),
}

/// What a file's footer says a base is made of.
pub ghost struct Opened {
    pub shared: Option<PairTable>,
    pub overlays: Map<ScopeId, PairTable>,
    pub registry: Option<RegistryAt>,
    pub sequence: u64,
}

/// The table at `m`, or what is wrong with it.
pub open spec fn table_at(data: Seq<u8>, m: MetaView, stride: int) -> Result<
    PairTable,
    TableError,
> {
    match table_error(data, m.offset as int, m.offset + m.length, stride) {
        Some(e) => Err(e),
        None => Ok(
            PairTable { at: m.offset as usize, count: u64_at(data, m.offset as int) as usize },
        ),
    }
}

/// `o` with what one more blob adds. Unknown blob types add nothing but their
/// sequence.
pub open spec fn open_step(data: Seq<u8>, before: Opened, m: MetaView) -> Result<
    Opened,
    BaseError,
> {
    let seq = if m.sequence_number < 0 {
        0
    } else {
        m.sequence_number as u64
    };
    let o = Opened {
        sequence: if seq > before.sequence {
            seq
        } else {
            before.sequence
        },
        ..before
    };
    if m.blob_type == GLOBAL_BLOB_TYPE@ {
        match table_at(data, m, 16) {
            Err(e) => Err(BaseError::Pairs(e)),
            Ok(t) => Ok(Opened { shared: Some(t), ..o }),
        }
    } else if m.blob_type == SCOPE_BLOB_TYPE@ {
        match named_scope(m.properties) {
            Err(e) => Err(BaseError::Scope(e)),
            Ok(scope) => match table_at(data, m, 16) {
                Err(e) => Err(BaseError::Pairs(e)),
                Ok(t) => Ok(Opened { overlays: o.overlays.insert(scope, t), ..o }),
            },
        }
    } else if m.blob_type == FLAT_BLOB_TYPE@ {
        match table_at(data, m, 12) {
            Err(e) => Err(BaseError::Registry(e)),
            Ok(t) => Ok(Opened { registry: Some(RegistryAt::Flat(t)), ..o }),
        }
    } else if m.blob_type == BLOCKED_BLOB_TYPE@ {
        match parse_error(data, m.offset as int, m.offset + m.length) {
            Some(e) => Err(BaseError::Blocks(e)),
            None => Ok(Opened { registry: Some(RegistryAt::Blocked(m.offset as int)), ..o }),
        }
    } else {
        Ok(o)
    }
}

pub open spec fn opened(data: Seq<u8>, metas: Seq<MetaView>) -> Result<Opened, BaseError>
    decreases metas.len(),
{
    if metas.len() == 0 {
        Ok(Opened { shared: None, overlays: Map::empty(), registry: None, sequence: 0 })
    } else {
        match opened(data, metas.drop_last()) {
            Err(e) => Err(e),
            Ok(o) => open_step(data, o, metas.last()),
        }
    }
}

/// What is wrong with a file whose footer says `metas`.
pub open spec fn open_error(data: Seq<u8>, metas: Seq<MetaView>) -> Option<BaseError> {
    match range_error(metas, data.len()) {
        Some(e) => Some(BaseError::File(e)),
        None => match opened(data, metas) {
            Err(e) => Some(e),
            Ok(_) => None,
        },
    }
}

/// The entries that the pairs of one scope contribute to a rebuilt registry:
/// both ends of each, as their live shared roots.
pub open spec fn overlay_entries(
    shared: Map<NodeId, NodeId>,
    scope: ScopeId,
    pairs: Seq<(NodeId, NodeId)>,
) -> Seq<(NodeId, ScopeId)>
    decreases pairs.len(),
{
    if pairs.len() == 0 {
        Seq::empty()
    } else {
        overlay_entries(shared, scope, pairs.drop_last()) + seq![
            (step_up(shared, pairs.last().0), scope),
            (step_up(shared, pairs.last().1), scope),
        ]
    }
}

/// The entries of every scope.
pub open spec fn all_overlay_entries(
    shared: Map<NodeId, NodeId>,
    scopes: Seq<ScopePairs>,
) -> Seq<(NodeId, ScopeId)>
    decreases scopes.len(),
{
    if scopes.len() == 0 {
        Seq::empty()
    } else {
        all_overlay_entries(shared, scopes.drop_last()) + overlay_entries(
            shared,
            scopes.last().scope,
            scopes.last().pairs,
        )
    }
}

/// A [`RoutingBase`] served from a mapped Puffin file.
#[derive(Debug)]
pub struct PuffinBase {
    data: bytes::Bytes,
    shared: Option<PairTable>,
    overlays: Vec<OverlayTable>,
    /// `None` only where there is no overlay either.
    registry: Option<RegistryIndex>,
    shared_members: Option<MemberTable>,
    overlay_members: BTreeMap<ScopeId, MemberTable>,
    /// Every table with pairs has a member index.
    indexed: bool,
    sequence: u64,
}

impl PuffinBase {
    /// The mapping.
    pub closed spec fn content(&self) -> Seq<u8> {
        payload_content(self.data)
    }

    /// Where the overlays' tables are, in ascending scope order.
    pub closed spec fn overlay_tables(&self) -> Seq<OverlayTable> {
        self.overlays@
    }

    /// Where the shared tier's table is.
    pub closed spec fn shared_table(&self) -> Option<PairTable> {
        self.shared
    }

    pub closed spec fn registry_index(&self) -> Option<RegistryIndex> {
        self.registry
    }

    pub closed spec fn seq(&self) -> u64 {
        self.sequence
    }

    /// The shared tier's member index.
    pub closed spec fn shared_member_table(&self) -> Option<MemberTable> {
        self.shared_members
    }

    /// The member index of `scope`'s overlay.
    pub closed spec fn overlay_member_table(&self, scope: ScopeId) -> Option<MemberTable> {
        entry_of(self.overlay_members@, scope)
    }

    /// Heap held to read the member indexes of the shared tier and the first
    /// `n` overlays, modulo the counter's width.
    pub open spec fn member_heap(&self, n: nat) -> u64
        decreases n,
    {
        if n == 0 {
            heap_of(self.shared_member_table())
        } else {
            self.member_heap((n - 1) as nat).wrapping_add(
                heap_of(self.overlay_member_table(self.overlay_tables()[n - 1].scope)),
            )
        }
    }

    /// Every table with pairs has a member index.
    pub open spec fn lists_members(&self) -> bool {
        &&& self.shared_pairs().len() > 0 ==> self.shared_member_table() is Some
        &&& forall|s: ScopeId|
            (#[trigger] self.overlay_pairs(s)).len() > 0 ==> self.overlay_member_table(s) is Some
    }

    /// The member indexes are those that the footer `metas` says.
    pub open spec fn lists_from(&self, metas: Seq<MetaView>) -> bool {
        &&& is_there(
            self.shared_member_table(),
            self.content(),
            shared_members_at(self.content(), metas),
        )
        &&& forall|s: ScopeId|
            is_there(
                #[trigger] self.overlay_member_table(s),
                self.content(),
                overlay_members_at(self.content(), metas, s),
            )
    }

    /// The shared tier's pairs.
    pub open spec fn shared_pairs(&self) -> Seq<(NodeId, NodeId)> {
        table_pairs(self.content(), self.shared_table())
    }

    /// The pairs of `scope`'s overlay.
    pub open spec fn overlay_pairs(&self, scope: ScopeId) -> Seq<(NodeId, NodeId)> {
        table_pairs(self.content(), table_of(self.overlay_tables(), scope))
    }

    /// Every overlay, in ascending scope order.
    pub open spec fn overlay_views(&self) -> Seq<ScopePairs> {
        self.overlay_tables().map_values(
            |o: OverlayTable| ScopePairs { scope: o.scope, pairs: o.table.pairs(self.content()) },
        )
    }

    /// Every registry entry, in order.
    pub open spec fn registry_entries(&self) -> Seq<(NodeId, ScopeId)> {
        match self.registry_index() {
            Some(r) => r.entries(self.content()),
            None => Seq::empty(),
        }
    }

    /// This is the base that the footer describes as `o`.
    pub open spec fn represents(&self, o: Opened) -> bool {
        &&& self.shared_table() == o.shared
        &&& forall|s: ScopeId| #[trigger]
            table_of(self.overlay_tables(), s) == if o.overlays.contains_key(s) {
                Some(o.overlays[s])
            } else {
                None
            }
        &&& self.seq() == o.sequence
        &&& match o.registry {
            Some(RegistryAt::Flat(t)) => self.registry_index() == Some(RegistryIndex::Flat(t)),
            Some(RegistryAt::Blocked(start)) => self.registry_index() matches Some(
                RegistryIndex::Blocked(reg),
            ) && reg.index.describes(self.content(), start),
            None => if self.overlay_tables().len() == 0 {
                self.registry_index() is None
            } else {
                self.registry_index() matches Some(RegistryIndex::Rebuilt(v)) && v@
                    == registry_listing(
                    all_overlay_entries(table_links(self.shared_pairs()), self.overlay_views()),
                )
            },
        }
    }

    /// Opens the file `data`, whose footer says `index`.
    pub fn from_index(data: bytes::Bytes, index: &[BlobMetadata]) -> (r: Result<
        PuffinBase,
        BaseError,
    >)
        ensures
            match r {
                Err(e) => open_error(payload_content(data), meta_views(index@)) == Some(e),
                Ok(b) => {
                    &&& open_error(payload_content(data), meta_views(index@)) is None
                    &&& b.wf()
                    &&& b.content() == payload_content(data)
                    &&& b.represents(opened(payload_content(data), meta_views(index@))->Ok_0)
                    &&& b.lists_from(meta_views(index@))
                },
            },
    {
        let bytes = slice_of(&data);
        let len: usize = bytes.len();
        match check_ranges(index, len) {
            Err(e) => {
                return Err(BaseError::File(e));
            },
            Ok(()) => {},
        }
        let ghost d = bytes@;
        let ghost metas = meta_views(index@);
        let mut shared: Option<PairTable> = None;
        let mut overlays: Vec<OverlayTable> = Vec::new();
        let mut registry: Option<RegistryIndex> = None;
        let mut sequence: u64 = 0;
        let mut i: usize = 0;
        let ghost mut o = Opened {
            shared: None,
            overlays: Map::empty(),
            registry: None,
            sequence: 0,
        };
        while i < index.len()
            invariant
                i <= index.len(),
                d == bytes@,
                d == payload_content(data),
                len == d.len(),
                metas == meta_views(index@),
                range_error(metas, len as nat) is None,
                forall|j: int| 0 <= j < index@.len() ==> (#[trigger] index@[j]).inside(len as nat),
                opened(d, metas.take(i as int)) == Ok::<Opened, BaseError>(o),
                shared == o.shared,
                sequence == o.sequence,
                overlays_ascend(overlays@),
                forall|s: ScopeId| #[trigger]
                    table_of(overlays@, s) == if o.overlays.contains_key(s) {
                        Some(o.overlays[s])
                    } else {
                        None
                    },
                shared matches Some(t) ==> t.inside(len as nat),
                forall|j: int|
                    0 <= j < overlays@.len() ==> (#[trigger] overlays@[j]).table.inside(len as nat),
                registry matches Some(r) ==> r.inside(len as nat),
                match o.registry {
                    Some(RegistryAt::Flat(t)) => registry == Some(RegistryIndex::Flat(t)),
                    Some(RegistryAt::Blocked(start)) => registry matches Some(
                        RegistryIndex::Blocked(reg),
                    ) && reg.index.describes(d, start),
                    None => registry is None,
                },
            decreases index.len() - i,
        {
            let meta = &index[i];
            let ghost m = meta@;
            proof {
                assert(metas.take(i + 1).drop_last() =~= metas.take(i as int));
                assert(metas.take(i + 1).last() == m);
                opening_stops(d, metas, i + 1);
                assert(index@[i as int].inside(len as nat));
            }
            let ghost before = o;
            let seq: u64 = if meta.sequence_number < 0 {
                0
            } else {
                meta.sequence_number as u64
            };
            if seq > sequence {
                sequence = seq;
            }
            let range = meta.range();
            let kind = meta.blob_type.as_str();
            if same_text(kind, GLOBAL_BLOB_TYPE) {
                match PairTable::parse(bytes, range) {
                    Ok(t) => {
                        shared = Some(t);
                    },
                    Err(e) => {
                        return Err(BaseError::Pairs(e));
                    },
                }
            } else if same_text(kind, SCOPE_BLOB_TYPE) {
                let scope: ScopeId = match scope_named(&meta.properties) {
                    Ok(s) => s,
                    Err(e) => {
                        return Err(BaseError::Scope(e));
                    },
                };
                match PairTable::parse(bytes, range) {
                    Ok(t) => {
                        put_overlay(&mut overlays, scope, t);
                    },
                    Err(e) => {
                        return Err(BaseError::Pairs(e));
                    },
                }
            } else if same_text(kind, FLAT_BLOB_TYPE) {
                match table_count(bytes, range.start, range.end, 12) {
                    Ok(count) => {
                        registry = Some(RegistryIndex::Flat(PairTable { at: range.start, count }));
                    },
                    Err(e) => {
                        return Err(BaseError::Registry(e));
                    },
                }
            } else if same_text(kind, BLOCKED_BLOB_TYPE) {
                match BlockedRegistry::parse(bytes, range) {
                    Ok(reg) => {
                        registry = Some(RegistryIndex::Blocked(reg));
                    },
                    Err(e) => {
                        return Err(BaseError::Blocks(e));
                    },
                }
            }
            proof {
                assert(open_step(d, before, m) is Ok);
                o = open_step(d, before, m)->Ok_0;
            }
            i += 1;
        }
        assert(metas.take(i as int) =~= metas);
        let rebuild: bool = registry.is_none() && overlays.len() > 0;
        let (shared_members, overlay_members) = read_members(bytes, index);
        let mut base = PuffinBase {
            data,
            shared,
            overlays,
            registry,
            shared_members,
            overlay_members,
            indexed: false,
            sequence,
        };
        let ghost filled = base;
        let indexed: bool = base.every_table_listed();
        base.indexed = indexed;
        if rebuild {
            let entries = base.rebuild_registry();
            base.registry = Some(RegistryIndex::Rebuilt(entries));
        }
        proof {
            assert forall|s: ScopeId|
                is_there(
                    #[trigger] base.overlay_member_table(s),
                    d,
                    overlay_members_at(d, metas, s),
                ) by {
                assert(base.overlay_member_table(s) == entry_of(overlay_members@, s));
            }
            assert(base.shared_pairs() == filled.shared_pairs());
            assert forall|s: ScopeId|
                #![trigger base.overlay_pairs(s)]
                #![trigger filled.overlay_pairs(s)]
                base.overlay_pairs(s) == filled.overlay_pairs(s) && base.overlay_member_table(s)
                    == filled.overlay_member_table(s) by {}
            assert(base.lists_members() == filled.lists_members());
        }
        Ok(base)
    }

    /// Whether every table with pairs has a member index.
    fn every_table_listed(&self) -> (r: bool)
        requires
            overlays_ascend(self.overlay_tables()),
        ensures
            r == self.lists_members(),
    {
        let ghost o = self.overlays@;
        let bare: bool = match self.shared {
            Some(t) => t.count > 0 && self.shared_members.is_none(),
            None => false,
        };
        if bare {
            return false;
        }
        let mut i: usize = 0;
        while i < self.overlays.len()
            invariant
                i <= self.overlays.len(),
                o == self.overlays@,
                overlays_ascend(o),
                forall|j: int|
                    0 <= j < i && (#[trigger] o[j]).table.count > 0
                        ==> self.overlay_members@.contains_key(o[j].scope),
            decreases self.overlays.len() - i,
        {
            let scope: ScopeId = self.overlays[i].scope;
            if self.overlays[i].table.count > 0 && !self.overlay_members.contains_key(&scope) {
                proof {
                    table_of_finds(o, scope);
                    assert(o[i as int].scope == scope);
                    assert(self.overlay_pairs(scope).len() > 0);
                }
                return false;
            }
            i += 1;
        }
        assert forall|s: ScopeId|
            (#[trigger] self.overlay_pairs(s)).len() > 0
        implies self.overlay_member_table(s) is Some by {
            table_of_finds(o, s);
            let t = table_of(o, s)->0;
            let j = choose|j: int|
                0 <= j < o.len() && #[trigger] o[j] == (OverlayTable { scope: s, table: t });
            assert(o[j].table.count > 0);
        }
        true
    }

    /// Rebuilds the registry by scanning overlay members and resolving each
    /// through the shared table.
    fn rebuild_registry(&self) -> (entries: Vec<(NodeId, ScopeId)>)
        requires
            self.tables_inside(),
        ensures
            entries@ == registry_listing(
                all_overlay_entries(table_links(self.shared_pairs()), self.overlay_views()),
            ),
    {
        let data = slice_of(&self.data);
        let ghost links = table_links(self.shared_pairs());
        let ghost views = self.overlay_views();
        let mut out: Vec<(NodeId, ScopeId)> = Vec::new();
        let mut i: usize = 0;
        assert(views.take(0) =~= Seq::empty());
        while i < self.overlays.len()
            invariant
                i <= self.overlays.len(),
                self.tables_inside(),
                data@ == self.content(),
                links == table_links(self.shared_pairs()),
                views == self.overlay_views(),
                out@ == all_overlay_entries(links, views.take(i as int)),
            decreases self.overlays.len() - i,
        {
            let scope: ScopeId = self.overlays[i].scope;
            let table = self.overlays[i].table;
            let ghost pairs = table.pairs(data@);
            let ghost before = out@;
            assert(self.overlay_tables()[i as int].table.inside(data@.len()));
            let mut j: usize = 0;
            assert(out@ =~= before + overlay_entries(links, scope, pairs.take(0)));
            while j < table.count
                invariant
                    j <= table.count,
                    self.tables_inside(),
                    table.inside(data@.len()),
                    data@ == self.content(),
                    links == table_links(self.shared_pairs()),
                    pairs == table.pairs(data@),
                    out@ == before + overlay_entries(links, scope, pairs.take(j as int)),
                decreases table.count - j,
            {
                let (node, root): (NodeId, NodeId) = get_pair(data, table.at, j);
                assert(pairs[j as int] == (node, root));
                out.push((self.live_root(data, node), scope));
                out.push((self.live_root(data, root), scope));
                assert(pairs.take(j + 1).drop_last() =~= pairs.take(j as int));
                j += 1;
                assert(out@ =~= before + overlay_entries(links, scope, pairs.take(j as int)));
            }
            assert(pairs.take(j as int) =~= pairs);
            assert(views.take(i + 1).drop_last() =~= views.take(i as int));
            assert(views.take(i + 1).last() == (ScopePairs { scope, pairs }));
            i += 1;
        }
        assert(views.take(i as int) =~= views);
        list_registry(out)
    }

    fn live_root(&self, data: &[u8], x: NodeId) -> (r: NodeId)
        requires
            self.tables_inside(),
            data@ == self.content(),
        ensures
            r == step_up(table_links(self.shared_pairs()), x),
    {
        match self.shared {
            None => x,
            Some(t) => match t.lookup(data, x) {
                Some(r) => r,
                None => x,
            },
        }
    }

    pub closed spec fn tables_inside(&self) -> bool {
        let len = self.content().len();
        &&& self.shared matches Some(t) ==> t.inside(len)
        &&& forall|j: int|
            0 <= j < self.overlays@.len() ==> (#[trigger] self.overlays@[j]).table.inside(len)
    }

    pub closed spec fn parts_inside(&self) -> bool {
        &&& self.tables_inside()
        &&& self.registry matches Some(r) ==> r.inside(self.content().len())
        &&& self.shared_member_table() matches Some(t) ==> t.inside(self.content().len())
        &&& forall|s: ScopeId|
            (#[trigger] self.overlay_member_table(s)) matches Some(t) ==> t.inside(
                self.content().len(),
            )
        &&& self.indexed == self.lists_members()
    }

    /// Where the table of `scope` is.
    fn find_overlay(&self, scope: ScopeId) -> (r: Option<PairTable>)
        requires
            overlays_ascend(self.overlay_tables()),
            self.tables_inside(),
        ensures
            r == table_of(self.overlay_tables(), scope),
            r matches Some(t) ==> t.inside(self.content().len()),
    {
        let ghost o = self.overlays@;
        proof {
            table_of_finds(o, scope);
        }
        let mut lo: usize = 0;
        let mut hi: usize = self.overlays.len();
        while lo < hi
            invariant
                lo <= hi <= self.overlays.len(),
                o == self.overlays@,
                overlays_ascend(o),
                self.tables_inside(),
                forall|i: int| 0 <= i < lo ==> (#[trigger] o[i]).scope < scope,
                forall|i: int| hi <= i < o.len() ==> (#[trigger] o[i]).scope > scope,
                forall|i: int|
                    0 <= i < o.len() && (#[trigger] o[i]).scope == scope ==> table_of(o, scope)
                        == Some(o[i].table),
            decreases hi - lo,
        {
            let mid: usize = lo + (hi - lo) / 2;
            let here: ScopeId = self.overlays[mid].scope;
            if here == scope {
                return Some(self.overlays[mid].table);
            } else if here < scope {
                assert forall|i: int| 0 <= i < mid + 1 implies (#[trigger] o[i]).scope < scope by {
                    if i < mid {
                        assert(o[i].scope < o[mid as int].scope);
                    }
                }
                lo = mid + 1;
            } else {
                assert forall|i: int|
                    mid <= i < o.len()
                implies (#[trigger] o[i]).scope > scope by {
                    if mid < i {
                        assert(o[mid as int].scope < o[i].scope);
                    }
                }
                hi = mid;
            }
        }
        None
    }

    /// How many shared pairs the base has.
    pub fn shared_len(&self) -> (n: usize)
        requires
            self.wf(),
        ensures
            n == self.shared_pairs().len(),
    {
        match self.shared {
            Some(t) => t.count,
            None => 0,
        }
    }

    /// Shared pair `i`.
    pub fn shared_pair_at(&self, i: usize) -> (p: (NodeId, NodeId))
        requires
            self.wf(),
            i < self.shared_pairs().len(),
        ensures
            p == self.shared_pairs()[i as int],
    {
        match self.shared {
            Some(t) => get_pair(slice_of(&self.data), t.at, i),
            None => (0, 0),
        }
    }

    /// How many pairs `scope`'s overlay has.
    pub fn overlay_len(&self, scope: ScopeId) -> (n: usize)
        requires
            self.wf(),
        ensures
            n == self.overlay_pairs(scope).len(),
    {
        match self.find_overlay(scope) {
            Some(t) => t.count,
            None => 0,
        }
    }

    /// Pair `i` of `scope`'s overlay.
    pub fn overlay_pair_at(&self, scope: ScopeId, i: usize) -> (p: (NodeId, NodeId))
        requires
            self.wf(),
            i < self.overlay_pairs(scope).len(),
        ensures
            p == self.overlay_pairs(scope)[i as int],
    {
        match self.find_overlay(scope) {
            Some(t) => get_pair(slice_of(&self.data), t.at, i),
            None => (0, 0),
        }
    }

    /// What is left of the registry entries from `c` on.
    pub open spec fn registry_rest(&self, c: RegistryCursor) -> Seq<(NodeId, ScopeId)> {
        match self.registry_index() {
            Some(r) => r.rest(self.content(), c),
            None => Seq::empty(),
        }
    }

    /// The start of the registry entries.
    pub fn registry_start(&self) -> (c: RegistryCursor)
        requires
            self.wf(),
        ensures
            self.registry_rest(c) == self.registry_entries(),
    {
        match &self.registry {
            Some(r) => {
                let c = r.start();
                assert(r.rest(self.content(), c) == r.entries(self.content()));
                c
            },
            None => RegistryIndex::Rebuilt(Vec::new()).start(),
        }
    }

    /// The next registry entry, with the cursor moved past it.
    pub fn registry_next(&self, c: &mut RegistryCursor) -> (r: Option<(NodeId, ScopeId)>)
        requires
            self.wf(),
        ensures
            (r is None) == (self.registry_rest(*old(c)).len() == 0),
            r matches Some(e) ==> e == self.registry_rest(*old(c)).first() && self.registry_rest(
                *final(c),
            ) == self.registry_rest(*old(c)).drop_first(),
    {
        match &self.registry {
            Some(r) => r.next(slice_of(&self.data), c),
            None => None,
        }
    }

    fn member_bytes(&self) -> (n: u64)
        requires
            self.wf(),
        ensures
            n == self.member_heap(self.overlay_tables().len()),
    {
        let mut n: u64 = match &self.shared_members {
            Some(t) => {
                assert(self.shared_member_table() == Some(*t));
                assert(t.inside(self.content().len()));
                t.heap_bytes()
            },
            None => 0,
        };
        let mut i: usize = 0;
        while i < self.overlays.len()
            invariant
                i <= self.overlays.len(),
                self.wf(),
                n == self.member_heap(i as nat),
            decreases self.overlays.len() - i,
        {
            let scope: ScopeId = self.overlays[i].scope;
            let more: u64 = match self.overlay_members.get(&scope) {
                Some(t) => {
                    assert(self.overlay_member_table(scope) == Some(*t));
                    assert(t.inside(self.content().len()));
                    t.heap_bytes()
                },
                None => {
                    assert(self.overlay_member_table(scope) is None);
                    0
                },
            };
            n = n.wrapping_add(more);
            i += 1;
        }
        n
    }

    fn overlay_total(&self) -> (n: u64)
        ensures
            n == pair_total(self.overlay_tables()),
    {
        let ghost o = self.overlays@;
        let mut n: u64 = 0;
        let mut i: usize = 0;
        while i < self.overlays.len()
            invariant
                i <= self.overlays.len(),
                o == self.overlays@,
                n == pair_total(o.take(i as int)),
            decreases self.overlays.len() - i,
        {
            n = n.wrapping_add(self.overlays[i].table.count as u64);
            assert(o.take(i + 1).drop_last() =~= o.take(i as int));
            i += 1;
        }
        assert(o.take(i as int) =~= o);
        n
    }
}

/// The pairs of all `overlays` together, modulo the counter's width.
pub open spec fn pair_total(overlays: Seq<OverlayTable>) -> u64
    decreases overlays.len(),
{
    if overlays.len() == 0 {
        0
    } else {
        pair_total(overlays.drop_last()).wrapping_add(overlays.last().table.count as u64)
    }
}

/// The pairs of a table that may be missing.
pub open spec fn table_pairs(data: Seq<u8>, t: Option<PairTable>) -> Seq<(NodeId, NodeId)> {
    match t {
        Some(t) => t.pairs(data),
        None => Seq::empty(),
    }
}

proof fn opening_stops(data: Seq<u8>, metas: Seq<MetaView>, i: int)
    requires
        0 <= i <= metas.len(),
    ensures
        opened(data, metas.take(i)) is Err ==> opened(data, metas) == opened(data, metas.take(i)),
    decreases metas.len(),
{
    if i == metas.len() {
        assert(metas.take(i) =~= metas);
    } else {
        assert(metas.drop_last().take(i) =~= metas.take(i));
        opening_stops(data, metas.drop_last(), i);
    }
}

/// Sets the table of `scope`, keeping the scopes in order.
fn put_overlay(overlays: &mut Vec<OverlayTable>, scope: ScopeId, table: PairTable)
    requires
        overlays_ascend(old(overlays)@),
    ensures
        overlays_ascend(final(overlays)@),
        forall|s: ScopeId| #[trigger]
            table_of(final(overlays)@, s) == if s == scope {
                Some(table)
            } else {
                table_of(old(overlays)@, s)
            },
        forall|j: int|
            0 <= j < final(overlays)@.len() ==> (#[trigger] final(overlays)@[j]).table == table
                || old(overlays)@.contains(final(overlays)@[j]),
{
    let ghost before = overlays@;
    let e = OverlayTable { scope, table };
    let mut at: usize = overlays.len();
    while at > 0 && overlays[at - 1].scope >= scope
        invariant
            at <= overlays@.len(),
            overlays@ == before,
            overlays_ascend(before),
            forall|i: int| at <= i < before.len() ==> (#[trigger] before[i]).scope >= scope,
        decreases at,
    {
        at = at - 1;
    }
    proof {
        assert forall|i: int| 0 <= i < at implies (#[trigger] before[i]).scope < scope by {
            if i < at - 1 {
                assert(before[i].scope < before[at - 1].scope);
            }
        }
        assert forall|i: int|
            at < i < before.len()
        implies (#[trigger] before[i]).scope > scope by {
            assert(before[at as int].scope < before[i].scope);
        }
    }
    let there: bool = at < overlays.len() && overlays[at].scope == scope;
    if there {
        overlays.set(at, e);
    } else {
        overlays.insert(at, e);
    }
    proof {
        let now = overlays@;
        assert forall|i: int, j: int| 0 <= i < j < now.len() implies (#[trigger] now[i]).scope < (
        #[trigger] now[j]).scope by {
            if there {
                assert(before[i].scope < before[j].scope);
            } else if j < at {
                assert(before[i].scope < before[j].scope);
            } else if i > at {
                assert(before[i - 1].scope < before[j - 1].scope);
            } else if i < at && j > at {
                assert(before[i].scope < before[j - 1].scope);
            } else if i == at {
                assert(now[j] == before[j - 1]);
                assert(before[j - 1].scope >= scope);
                if j - 1 == at {
                    assert(before[at as int].scope != scope);
                }
            }
        }
        assert forall|s: ScopeId| #[trigger] table_of(now, s) == if s == scope {
            Some(table)
        } else {
            table_of(before, s)
        } by {
            table_of_finds(now, s);
            table_of_finds(before, s);
            if s == scope {
                assert(now[at as int] == e);
            } else {
                match table_of(before, s) {
                    Some(t) => {
                        let i = choose|i: int|
                            0 <= i < before.len() && #[trigger] before[i] == (OverlayTable {
                                scope: s,
                                table: t,
                            });
                        if there || i < at {
                            assert(now[i] == before[i]);
                        } else {
                            assert(now[i + 1] == before[i]);
                        }
                    },
                    None => {
                        if let Some(t) = table_of(now, s) {
                            let i = choose|i: int|
                                0 <= i < now.len() && #[trigger] now[i] == (OverlayTable {
                                    scope: s,
                                    table: t,
                                });
                            if there || i < at {
                                assert(before[i] == now[i]);
                            } else {
                                assert(before[i - 1] == now[i]);
                            }
                        }
                    },
                }
            }
        }
        assert forall|j: int| 0 <= j < now.len() implies (#[trigger] now[j]).table == table
            || before.contains(now[j]) by {
            if j != at {
                if there || j < at {
                    assert(before[j] == now[j]);
                } else {
                    assert(before[j - 1] == now[j]);
                }
            }
        }
    }
}

/// What is left of `pairs` from a position on.
pub open spec fn pairs_from(pairs: Seq<(NodeId, NodeId)>, c: PairCursor) -> Seq<(NodeId, NodeId)> {
    if c.positions@.len() > 0 && c.positions@[0] <= pairs.len() {
        pairs.skip(c.positions@[0] as int)
    } else {
        Seq::empty()
    }
}

fn first_position() -> (c: PairCursor)
    ensures
        forall|pairs: Seq<(NodeId, NodeId)>| #[trigger] pairs_from(pairs, c) == pairs,
{
    let mut positions: Vec<usize> = Vec::new();
    positions.push(0);
    let c = PairCursor { positions };
    assert forall|pairs: Seq<(NodeId, NodeId)>| #[trigger] pairs_from(pairs, c) == pairs by {
        assert(pairs.skip(0) =~= pairs);
    }
    c
}

/// The pair at the cursor, which is moved past it.
fn pair_from(data: &[u8], table: Option<PairTable>, c: &mut PairCursor) -> (r: Option<
    (NodeId, NodeId),
>)
    requires
        table matches Some(t) ==> t.inside(data@.len()),
    ensures
        ({
            let rest = pairs_from(table_pairs(data@, table), *old(c));
            &&& (r is None) == (rest.len() == 0)
            &&& r matches Some(p) ==> p == rest.first() && pairs_from(
                table_pairs(data@, table),
                *final(c),
            ) == rest.drop_first()
        }),
{
    let t = match table {
        None => {
            return None;
        },
        Some(t) => t,
    };
    if c.positions.len() == 0 || c.positions[0] >= t.count {
        return None;
    }
    let at: usize = c.positions[0];
    let ghost pairs = t.pairs(data@);
    let ghost rest = pairs_from(pairs, *c);
    c.positions.set(0, at + 1);
    assert(pairs_from(pairs, *c) =~= rest.drop_first());
    Some(get_pair(data, t.at, at))
}

impl RoutingBase for PuffinBase {
    open spec fn shared_links(&self) -> Map<NodeId, NodeId> {
        table_links(self.shared_pairs())
    }

    open spec fn overlay_links(&self, scope: ScopeId) -> Map<NodeId, NodeId> {
        table_links(self.overlay_pairs(scope))
    }

    open spec fn registered(&self, root: NodeId) -> Set<ScopeId> {
        match self.registry_index() {
            Some(r) => r.answer(self.content(), root).to_set(),
            None => Set::empty(),
        }
    }

    open spec fn scope_list(&self) -> Seq<ScopeId> {
        self.overlay_tables().map_values(|o: OverlayTable| o.scope)
    }

    open spec fn shared_stream(&self) -> Seq<(NodeId, NodeId)> {
        self.shared_pairs()
    }

    open spec fn overlay_stream(&self, scope: ScopeId) -> Seq<(NodeId, NodeId)> {
        self.overlay_pairs(scope)
    }

    open spec fn member_indexed(&self) -> bool {
        self.lists_members()
    }

    open spec fn shared_kids(&self, parent: NodeId) -> Seq<NodeId> {
        kids_in(self.shared_member_table(), self.content(), parent)
    }

    open spec fn overlay_kids(&self, scope: ScopeId, parent: NodeId) -> Seq<NodeId> {
        kids_in(self.overlay_member_table(scope), self.content(), parent)
    }

    open spec fn shared_some(&self, parent: NodeId, limit: nat) -> Seq<NodeId> {
        some_in(self.shared_member_table(), self.content(), parent, limit)
    }

    open spec fn overlay_some(&self, scope: ScopeId, parent: NodeId, limit: nat) -> Seq<NodeId> {
        some_in(self.overlay_member_table(scope), self.content(), parent, limit)
    }

    open spec fn stats_view(&self) -> BaseStats {
        BaseStats {
            sequence: self.seq(),
            shared_pairs: self.shared_pairs().len() as u64,
            overlay_pairs: pair_total(self.overlay_tables()),
            scopes: self.overlay_tables().len() as u64,
            mapped_bytes: self.content().len() as u64,
            index_bytes: match self.registry_index() {
                Some(RegistryIndex::Blocked(reg)) => reg.index.heap() as u64,
                _ => 0,
            }.wrapping_add(self.member_heap(self.overlay_tables().len())),
            registry_indexed: match self.registry_index() {
                Some(RegistryIndex::Rebuilt(_)) => false,
                Some(_) => true,
                None => false,
            },
        }
    }

    open spec fn shared_rest(&self, c: PairCursor) -> Seq<(NodeId, NodeId)> {
        pairs_from(self.shared_pairs(), c)
    }

    open spec fn overlay_rest(&self, scope: ScopeId, c: PairCursor) -> Seq<(NodeId, NodeId)> {
        pairs_from(self.overlay_pairs(scope), c)
    }

    open spec fn wf(&self) -> bool {
        &&& self.parts_inside()
        &&& overlays_ascend(self.overlay_tables())
    }

    fn shared_parent(&self, node: NodeId) -> (r: Option<NodeId>) {
        match self.shared {
            None => None,
            Some(t) => t.lookup(slice_of(&self.data), node),
        }
    }

    fn overlay_parent(&self, scope: ScopeId, node: NodeId) -> (r: Option<NodeId>) {
        match self.find_overlay(scope) {
            None => None,
            Some(t) => t.lookup(slice_of(&self.data), node),
        }
    }

    fn scopes_for_root(&self, root: NodeId) -> (r: ScopeList) {
        match &self.registry {
            Some(reg) => reg.scopes_for(slice_of(&self.data), root),
            None => {
                let l = ScopeList::from_vec(Vec::new());
                assert(l@.to_set() =~= Set::empty());
                l
            },
        }
    }

    fn scopes(&self) -> (r: Vec<ScopeId>) {
        let mut out: Vec<ScopeId> = Vec::new();
        let mut i: usize = 0;
        let ghost all = self.scope_list();
        while i < self.overlays.len()
            invariant
                i <= self.overlays.len(),
                all == self.scope_list(),
                out@ == all.take(i as int),
            decreases self.overlays.len() - i,
        {
            out.push(self.overlays[i].scope);
            i += 1;
            assert(out@ =~= all.take(i as int));
        }
        assert(all.take(i as int) =~= all);
        out
    }

    fn shared_start(&self) -> (c: PairCursor) {
        first_position()
    }

    fn shared_next(&self, c: &mut PairCursor) -> (r: Option<(NodeId, NodeId)>) {
        pair_from(slice_of(&self.data), self.shared, c)
    }

    fn overlay_start(&self, scope: ScopeId) -> (c: PairCursor) {
        first_position()
    }

    fn overlay_next(&self, scope: ScopeId, c: &mut PairCursor) -> (r: Option<(NodeId, NodeId)>) {
        let table = self.find_overlay(scope);
        pair_from(slice_of(&self.data), table, c)
    }

    fn has_member_index(&self) -> (r: bool) {
        self.indexed
    }

    fn shared_children(&self, parent: NodeId, limit: usize, out: &mut Vec<NodeId>) {
        match &self.shared_members {
            Some(t) => {
                assert(self.shared_member_table() == Some(*t));
                t.children(slice_of(&self.data), parent, limit, out);
            },
            None => {
                assert(out@ =~= out@ + self.shared_some(parent, limit as nat));
            },
        }
    }

    fn overlay_children(
        &self,
        scope: ScopeId,
        parent: NodeId,
        limit: usize,
        out: &mut Vec<NodeId>,
    ) {
        match self.overlay_members.get(&scope) {
            Some(t) => {
                assert(self.overlay_member_table(scope) == Some(*t));
                t.children(slice_of(&self.data), parent, limit, out);
            },
            None => {
                assert(self.overlay_member_table(scope) is None);
                assert(out@ =~= out@ + self.overlay_some(scope, parent, limit as nat));
            },
        }
    }

    fn stats(&self) -> (s: BaseStats) {
        let data = slice_of(&self.data);
        let shared_pairs: u64 = match self.shared {
            Some(t) => t.count as u64,
            None => 0,
        };
        let index_bytes: u64 = match &self.registry {
            Some(RegistryIndex::Blocked(reg)) => {
                assert(reg.index.fits(self.content().len()));
                reg.heap_bytes()
            },
            _ => 0,
        };
        let registry_indexed: bool = match &self.registry {
            Some(RegistryIndex::Rebuilt(_)) => false,
            Some(_) => true,
            None => false,
        };
        BaseStats {
            sequence: self.sequence,
            shared_pairs,
            overlay_pairs: self.overlay_total(),
            scopes: self.overlays.len() as u64,
            mapped_bytes: data.len() as u64,
            index_bytes: index_bytes.wrapping_add(self.member_bytes()),
            registry_indexed,
        }
    }
}

/// **A base is as recent as its newest blob**: its sequence is the highest that
/// any of its blobs has, and zero where none has one.
pub proof fn a_base_is_as_recent_as_its_newest_blob(data: Seq<u8>, metas: Seq<MetaView>)
    ensures
        opened(data, metas) matches Ok(o) ==> {
            &&& forall|i: int|
                0 <= i < metas.len() ==> (#[trigger] metas[i]).sequence_number <= o.sequence
            &&& o.sequence > 0 ==> exists|i: int|
                0 <= i < metas.len() && (#[trigger] metas[i]).sequence_number == o.sequence
        },
    decreases metas.len(),
{
    if metas.len() > 0 {
        let front = metas.drop_last();
        let n = metas.len() - 1;
        a_base_is_as_recent_as_its_newest_blob(data, front);
        if let Ok(o) = opened(data, metas) {
            let was = opened(data, front)->Ok_0;
            assert forall|i: int| 0 <= i < metas.len() implies (#[trigger] metas[i]).sequence_number
                <= o.sequence by {
                if i < n {
                    assert(front[i] == metas[i]);
                }
            }
            if o.sequence > 0 {
                if metas[n].sequence_number != o.sequence {
                    assert(was.sequence == o.sequence);
                    let i = choose|i: int|
                        0 <= i < front.len() && (#[trigger] front[i]).sequence_number
                            == was.sequence;
                    assert(metas[i].sequence_number == o.sequence);
                }
            }
        }
    }
}

/// **Overlay pairs add up**: one table has as many as it counts, and two lists of
/// tables those of both, modulo the counter's width.
pub proof fn overlay_pairs_add_up(a: Seq<OverlayTable>, b: Seq<OverlayTable>, t: OverlayTable)
    ensures
        pair_total(Seq::empty()) == 0,
        pair_total(seq![t]) == t.table.count as u64,
        pair_total(a + b) == pair_total(a).wrapping_add(pair_total(b)),
    decreases b.len(),
{
    assert(seq![t].drop_last() =~= Seq::empty());
    assert(pair_total(Seq::empty()) == 0);
    assert(seq![t].last() == t);
    if b.len() == 0 {
        assert(a + b =~= a);
    } else {
        overlay_pairs_add_up(a, b.drop_last(), t);
        assert((a + b).drop_last() =~= a + b.drop_last());
        assert((a + b).last() == b.last());
    }
}

} // verus!
