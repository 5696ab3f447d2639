//! The read-only **routing base**: committed DSU state that lives outside the
//! process heap (typically a mapped Puffin file on local disk).
//!
//! The base is an immutable snapshot; everything applied after it lives in the
//! in-memory **memtable** (the `Dsu` maps inside `ScopedForest`). Composition
//! is the same trick the engine already uses twice, scope overlay over shared
//! tier and delta over base, applied across the RAM/disk boundary:
//!
//! ```text
//! composed_root(x) = memtable.find(base_root(x) or x)
//! ```
//!
//! # The invariant that makes it exact
//!
//! **Every mutation resolves its operands through the composed path before
//! touching the memtable.** Consequently a memtable key is always a *composed
//! root*: a node the base does not store a parent for. That is what lets a
//! lookup stop after one base probe plus one memtable walk (no re-probing),
//! and it is why a node with a memtable parent can skip the base probe
//! entirely.
//!
//! Since roots only ever decrease (canonical lowest-id-wins), the base answer
//! is a valid *earlier* representative and the memtable walk refines it
//! downward, never the reverse.

use vstd::prelude::*;

use super::dsu::descending;
use super::types::{NodeId, ScopeId, ScopeList};

verus! {

/// A place in an ascending stream of pairs: one position per layer read.
#[derive(Debug)]
pub struct PairCursor {
    pub positions: Vec<usize>,
}

/// Every parent is itself a root: one probe resolves, with no chain to walk.
pub open spec fn resolved(links: Map<NodeId, NodeId>) -> bool {
    &&& descending(links)
    &&& forall|k: NodeId| #[trigger] links.contains_key(k) ==> !links.contains_key(links[k])
}

/// The value `links` records for `x`; `x` itself where it records none.
pub open spec fn step_up(links: Map<NodeId, NodeId>, x: NodeId) -> NodeId {
    if links.contains_key(x) {
        links[x]
    } else {
        x
    }
}

/// Each key is larger than the ones before it.
pub open spec fn ascending(pairs: Seq<(NodeId, NodeId)>) -> bool {
    forall|i: int, j: int|
        0 <= i < j < pairs.len() ==> (#[trigger] pairs[i]).0 < (#[trigger] pairs[j]).0
}

/// `pairs` lists exactly the entries of `links`, in ascending key order.
pub open spec fn lists(pairs: Seq<(NodeId, NodeId)>, links: Map<NodeId, NodeId>) -> bool {
    &&& ascending(pairs)
    &&& forall|i: int|
        0 <= i < pairs.len() ==> links.contains_key((#[trigger] pairs[i]).0) && links[pairs[i].0]
            == pairs[i].1
    &&& forall|k: NodeId| #[trigger]
        links.contains_key(k) ==> exists|i: int| 0 <= i < pairs.len() && (#[trigger] pairs[i]).0 == k
}

/// `kids` lists every linked node under a smaller node with the same root,
/// lists nothing else, and no list repeats a node or outgrows memory.
pub open spec fn kids_index(
    links: Map<NodeId, NodeId>,
    kids: spec_fn(NodeId) -> Seq<NodeId>,
) -> bool {
    &&& forall|k: NodeId| #[trigger]
        links.contains_key(k) ==> exists|p: NodeId| #[trigger] kids(p).contains(k)
    &&& forall|p: NodeId, k: NodeId| #[trigger]
        kids(p).contains(k) ==> p < k && links.contains_key(k) && step_up(links, p) == step_up(
            links,
            k,
        )
    &&& forall|p: NodeId| (#[trigger] kids(p)).no_duplicates() && kids(p).len() < usize::MAX
}

/// No overlay link has an end in the shared component of `c`.
pub open spec fn untouched(
    shared: Map<NodeId, NodeId>,
    overlay: Map<NodeId, NodeId>,
    c: NodeId,
) -> bool {
    forall|k: NodeId| #[trigger]
        overlay.contains_key(k) ==> step_up(shared, k) != c && step_up(shared, overlay[k]) != c
}

/// Overlay elements follow their shared components: an element and the shared
/// root it belongs to are in the same overlay component.
pub open spec fn settled(shared: Map<NodeId, NodeId>, overlay: Map<NodeId, NodeId>) -> bool {
    forall|k: NodeId| #[trigger]
        overlay.contains_key(k) ==> step_up(overlay, step_up(shared, k)) == overlay[k] && step_up(
            overlay,
            step_up(shared, overlay[k]),
        ) == overlay[k]
}

/// A committed, immutable routing snapshot that can be consulted without
/// holding it in the heap.
pub trait RoutingBase: Send + Sync {
    /// The shared tier as of the base: `node -> shared root`.
    spec fn shared_links(&self) -> Map<NodeId, NodeId>;

    /// `scope`'s overlay as of the base: `shared root -> scope root`.
    spec fn overlay_links(&self, scope: ScopeId) -> Map<NodeId, NodeId>;

    /// Scopes registered on the shared root `root`.
    spec fn registered(&self, root: NodeId) -> Set<ScopeId>;

    /// Scopes with overlay state, in the order [`RoutingBase::scopes`] lists them.
    spec fn scope_list(&self) -> Seq<ScopeId>;

    /// The shared pairs in the order the base streams them.
    spec fn shared_stream(&self) -> Seq<(NodeId, NodeId)>;

    /// The pairs of `scope`'s overlay in the order the base streams them.
    spec fn overlay_stream(&self, scope: ScopeId) -> Seq<(NodeId, NodeId)>;

    /// Whether downward queries can be answered.
    spec fn member_indexed(&self) -> bool;

    /// Nodes listed directly below `parent` in the shared tier.
    spec fn shared_kids(&self, parent: NodeId) -> Seq<NodeId>;

    /// What a query for at most `limit` of them answers.
    spec fn shared_some(&self, parent: NodeId, limit: nat) -> Seq<NodeId>;

    /// Nodes listed directly below `parent` in `scope`'s overlay.
    spec fn overlay_kids(&self, scope: ScopeId, parent: NodeId) -> Seq<NodeId>;

    /// What a query for at most `limit` of them answers.
    spec fn overlay_some(&self, scope: ScopeId, parent: NodeId, limit: nat) -> Seq<NodeId>;

    /// What [`RoutingBase::stats`] reports.
    spec fn stats_view(&self) -> BaseStats;

    /// What is left of the shared stream from `c` on.
    spec fn shared_rest(&self, c: PairCursor) -> Seq<(NodeId, NodeId)>;

    /// What is left of the stream of `scope`'s overlay from `c` on.
    spec fn overlay_rest(&self, scope: ScopeId, c: PairCursor) -> Seq<(NodeId, NodeId)>;

    /// The facts that hold however the base was read; see the implementors.
    spec fn wf(&self) -> bool;

    /// Parent recorded for `node` in the shared tier, or `None` when the base
    /// stores none (i.e. `node` was a root, or unknown, as of the base).
    fn shared_parent(&self, node: NodeId) -> (r: Option<NodeId>)
        requires
            self.wf(),
        ensures
            r == (if self.shared_links().contains_key(node) {
                Some(self.shared_links()[node])
            } else {
                None
            }),
    ;

    /// Same, within `scope`'s overlay.
    fn overlay_parent(&self, scope: ScopeId, node: NodeId) -> (r: Option<NodeId>)
        requires
            self.wf(),
        ensures
            r == (if self.overlay_links(scope).contains_key(node) {
                Some(self.overlay_links(scope)[node])
            } else {
                None
            }),
    ;

    /// Scopes that held overlay state keyed on shared root `root` as of the
    /// base. Drives merge notifications for roots the memtable has never seen.
    fn scopes_for_root(&self, root: NodeId) -> (r: ScopeList)
        requires
            self.wf(),
        ensures
            r@.to_set() == self.registered(root),
    ;

    /// Scopes with any overlay state in the base.
    fn scopes(&self) -> (r: Vec<ScopeId>)
        requires
            self.wf(),
        ensures
            r@ == self.scope_list(),
    ;

    /// The start of the shared stream.
    fn shared_start(&self) -> (c: PairCursor)
        requires
            self.wf(),
        ensures
            self.shared_rest(c) == self.shared_stream(),
    ;

    /// The next pair of the shared stream, with the cursor moved past it.
    /// Streaming, not collecting: a compaction walks the whole base with no
    /// allocation per pair.
    fn shared_next(&self, c: &mut PairCursor) -> (r: Option<(NodeId, NodeId)>)
        requires
            self.wf(),
        ensures
            (r is None) == (self.shared_rest(*old(c)).len() == 0),
            r matches Some(p) ==> p == self.shared_rest(*old(c)).first() && self.shared_rest(
                *final(c),
            ) == self.shared_rest(*old(c)).drop_first(),
    ;

    /// The start of the stream of `scope`'s overlay.
    fn overlay_start(&self, scope: ScopeId) -> (c: PairCursor)
        requires
            self.wf(),
        ensures
            self.overlay_rest(scope, c) == self.overlay_stream(scope),
    ;

    /// Same as [`RoutingBase::shared_next`], for `scope`'s overlay.
    fn overlay_next(&self, scope: ScopeId, c: &mut PairCursor) -> (r: Option<(NodeId, NodeId)>)
        requires
            self.wf(),
        ensures
            (r is None) == (self.overlay_rest(scope, *old(c)).len() == 0),
            r matches Some(p) ==> p == self.overlay_rest(scope, *old(c)).first()
                && self.overlay_rest(scope, *final(c)) == self.overlay_rest(
                scope,
                *old(c),
            ).drop_first(),
    ;

    /// Whether this base can answer downward queries at all.
    fn has_member_index(&self) -> (r: bool)
        requires
            self.wf(),
        ensures
            r == self.member_indexed(),
    ;

    /// At most `limit` nodes listed below `parent`, appended to `out`: never
    /// more.
    ///
    /// **The limit is load-bearing, not an optimisation.** In a flattened run a
    /// component's root has every member as a direct child, so an unbounded
    /// fetch makes a capped query cost O(component) instead of O(cap).
    fn shared_children(&self, parent: NodeId, limit: usize, out: &mut Vec<NodeId>)
        requires
            self.wf(),
        ensures
            final(out)@ == old(out)@ + self.shared_some(parent, limit as nat),
            final(out)@.len() <= old(out)@.len() + limit,
    ;

    /// Same within `scope`'s overlay.
    fn overlay_children(
        &self,
        scope: ScopeId,
        parent: NodeId,
        limit: usize,
        out: &mut Vec<NodeId>,
    )
        requires
            self.wf(),
        ensures
            final(out)@ == old(out)@ + self.overlay_some(scope, parent, limit as nat),
            final(out)@.len() <= old(out)@.len() + limit,
    ;

    fn stats(&self) -> (s: BaseStats)
        requires
            self.wf(),
        ensures
            s == self.stats_view(),
    ;
}

/// The first `n` of `s`, or all of it.
pub open spec fn first(s: Seq<NodeId>, n: nat) -> Seq<NodeId> {
    if s.len() <= n {
        s
    } else {
        s.take(n as int)
    }
}

/// What a base encodes is a routing snapshot: fully resolved, streamed in key
/// order, with every scope registered on the shared roots of both ends of each
/// of its overlay links.
pub open spec fn valid_base<B: RoutingBase + ?Sized>(b: &B) -> bool {
    &&& resolved(b.shared_links())
    &&& lists(b.shared_stream(), b.shared_links())
    &&& forall|s: ScopeId| #[trigger] resolved(b.overlay_links(s))
    &&& forall|s: ScopeId| settled(b.shared_links(), #[trigger] b.overlay_links(s))
    &&& forall|s: ScopeId| lists(#[trigger] b.overlay_stream(s), b.overlay_links(s))
    &&& forall|i: int, j: int|
        0 <= i < j < b.scope_list().len() ==> #[trigger] b.scope_list()[i]
            < #[trigger] b.scope_list()[j]
    &&& forall|s: ScopeId, k: NodeId| #[trigger]
        b.overlay_links(s).contains_key(k) ==> b.scope_list().contains(s)
    &&& forall|s: ScopeId, c: NodeId|
        !b.shared_links().contains_key(c) && !(#[trigger] b.registered(c).contains(s))
            ==> untouched(b.shared_links(), b.overlay_links(s), c)
}

/// Two handles on one base: both record and stream the same.
pub open spec fn same_base<A: RoutingBase + ?Sized, B: RoutingBase + ?Sized>(a: &A, b: &B) -> bool {
    &&& b.wf()
    &&& a.shared_links() == b.shared_links()
    &&& a.shared_stream() == b.shared_stream()
    &&& a.scope_list() == b.scope_list()
    &&& forall|s: ScopeId| #[trigger] a.overlay_links(s) == b.overlay_links(s)
    &&& forall|s: ScopeId| #[trigger] a.overlay_stream(s) == b.overlay_stream(s)
    &&& forall|r: NodeId| #[trigger] a.registered(r) == b.registered(r)
    &&& a.member_indexed() == b.member_indexed()
    &&& forall|p: NodeId| #[trigger] a.shared_kids(p) == b.shared_kids(p)
    &&& forall|s: ScopeId, p: NodeId| #[trigger] a.overlay_kids(s, p) == b.overlay_kids(s, p)
    &&& forall|p: NodeId, limit: nat| #[trigger]
        a.shared_some(p, limit) == b.shared_some(p, limit)
    &&& forall|s: ScopeId, p: NodeId, limit: nat| #[trigger]
        a.overlay_some(s, p, limit) == b.overlay_some(s, p, limit)
}

/// Every linked node of either tier is listed below another of its component.
pub open spec fn valid_member_index<B: RoutingBase + ?Sized>(b: &B) -> bool {
    &&& kids_index(b.shared_links(), |p: NodeId| b.shared_kids(p))
    &&& forall|s: ScopeId|
        kids_index(#[trigger] b.overlay_links(s), |p: NodeId| b.overlay_kids(s, p))
    &&& lists_in_order(b)
}

/// A query for some of the children answers the first of them.
pub open spec fn lists_in_order<B: RoutingBase + ?Sized>(b: &B) -> bool {
    &&& forall|p: NodeId, limit: nat| #[trigger]
        b.shared_some(p, limit) == first(b.shared_kids(p), limit)
    &&& forall|s: ScopeId, p: NodeId, limit: nat| #[trigger]
        b.overlay_some(s, p, limit) == first(b.overlay_kids(s, p), limit)
}

#[derive(Debug, Clone, Copy)]
pub struct BaseStats {
    /// Catalog sequence this base was compacted from.
    pub sequence: u64,
    pub shared_pairs: u64,
    pub overlay_pairs: u64,
    pub scopes: u64,
    /// Bytes mapped (file size), not resident bytes.
    pub mapped_bytes: u64,
    /// Heap held by in-RAM lookup indexes over the mapping. Small and
    /// proportional to `mapped_bytes`, but not zero: the one part of a
    /// disk-backed base that still scales with state.
    pub index_bytes: u64,
    /// True when the base carried a precomputed registry blob; false means
    /// the registry was rebuilt in memory at load time.
    pub registry_indexed: bool,
}

impl BaseStats {
    pub open spec fn none() -> BaseStats {
        BaseStats {
            sequence: 0,
            shared_pairs: 0,
            overlay_pairs: 0,
            scopes: 0,
            mapped_bytes: 0,
            index_bytes: 0,
            registry_indexed: false,
        }
    }
}

impl Default for BaseStats {
    fn default() -> (s: BaseStats)
        ensures
            s == BaseStats::none(),
    {
        BaseStats {
            sequence: 0,
            shared_pairs: 0,
            overlay_pairs: 0,
            scopes: 0,
            mapped_bytes: 0,
            index_bytes: 0,
            registry_indexed: false,
        }
    }
}

} // verus!
