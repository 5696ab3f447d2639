//! Multi-tenant connectivity: one shared DSU plus per-scope overlay DSUs.
//!
//! # The scoping problem
//!
//! A scope `s` sees the union of the global edge set and its own edge set, so
//! its connectivity is defined over `G_global ∪ G_s`. With thousands of
//! scopes we can afford neither a full DSU copy per scope (a global edge
//! would fan out to every copy) nor recomputing closures at query time.
//!
//! # Layered DSU with merge notifications
//!
//! - The **shared DSU** holds only globally-visible edges.
//! - Each scope holds a sparse **overlay DSU** whose elements are node ids
//!   that were *shared roots* at the time a scope edge was applied.
//! - A **registry** maps `shared root -> set of scopes holding overlay state
//!   keyed by that root`. When a global union absorbs root `B` into root `A`,
//!   only the scopes registered on `B` receive a fix-up, which records that
//!   the two overlay elements now denote the same shared component. The cost
//!   is proportional to the number of scopes that actually reference the
//!   absorbed root.
//!
//! Queries then compose the two layers:
//! `scope_root(s, x) = overlay(s).find(shared.find(x))`, falling back to the
//! shared root when the scope has no overlay state for it.
//!
//! # Canonical representatives: lowest graph id wins
//!
//! Both layers union by *minimum id* (see [`Dsu`](super::dsu::Dsu)), so
//! `scope_root` is the smallest graph id in the component as seen by that
//! scope: deterministic and monotonically non-increasing as merges happen.

use std::sync::Arc;
use vstd::prelude::*;

use super::base::{
    first, kids_index, lists, resolved, same_base, settled, step_up, untouched, valid_base,
    valid_member_index, BaseStats, PairCursor, RoutingBase,
};
use super::compose::{
    above, composed, composed_join, composition_is_exact, same_roots_compose_the_same,
};
use super::dsu::{
    absorbed, descending, edges_index, higher, linked, linked_lookup, links_survive, lower, pairs_descend,
    root_is_a_root, root_of, Merge,
};
use super::links::children_in;
use super::members::{Members, Walk};
use super::memtable::{capped, joins, listed, Memtable};
use super::history::root_after;
use super::snapshot::{
    collected, scope_pairs_view, Collected, ForestSnapshot, ScopePairs, SnapshotCollector,
    SnapshotView,
};
use super::sink::{registry_events, registry_events_join, SinkEvent, SnapshotSink};
use super::sorting::{
    finite_scopes_have_an_order, finite_sets_have_an_order, in_order, in_order_is, scopes_ascending, scopes_in_order, scopes_in_order_is, sort_scopes,
    strictly_ascending,
};
use super::types::{first_occurrences_keep_every_id, EdgeEvent, NodeId, ScopeId, GLOBAL_SCOPE};

verus! {

/// The whole resolvable state: an optional committed base plus the memtable
/// layered over it, replaced together by a fold.
pub struct ScopedForest {
    /// Committed state living outside the heap. When present the memtable
    /// holds everything applied since it was compacted.
    base: Option<Arc<dyn RoutingBase>>,
    mem: Memtable,
    /// Whether memtables track merge edges downward. Set once at construction
    /// and carried across folds: a memtable created without it can never be
    /// retrofitted, because the edges it would have recorded are gone.
    member_index: bool,
    events_applied: u64,
    scope_links: u64,
    fixups: u64,
    folds: u64,
}

/// The root `r` becomes once the components rooted at `a` and `b` are joined.
pub open spec fn joined(r: NodeId, a: NodeId, b: NodeId) -> NodeId {
    absorbed(r, higher(a, b), lower(a, b))
}

/// Handing `s` to `build` may fail with `e`.
pub open spec fn fails_with<S, T, E, F: FnOnce(S) -> Result<(Arc<dyn RoutingBase>, T), E>>(
    build: F,
    s: S,
    e: E,
) -> bool {
    build.ensures((s,), Err(e))
}

/// A 64-bit event counter after `n` more events; it wraps.
pub open spec fn counted(before: u64, n: nat) -> int {
    (before + n) % 0x1_0000_0000_0000_0000
}

impl ScopedForest {
    // --- what the forest says ---------------------------------------------

    /// The shared tier of the base.
    pub closed spec fn base_shared(&self) -> Map<NodeId, NodeId> {
        match self.base {
            Some(b) => b.shared_links(),
            None => Map::empty(),
        }
    }

    /// `scope`'s overlay in the base.
    pub closed spec fn base_overlay(&self, scope: ScopeId) -> Map<NodeId, NodeId> {
        match self.base {
            Some(b) => b.overlay_links(scope),
            None => Map::empty(),
        }
    }

    /// Scopes the base registers on the shared root `root`.
    pub closed spec fn base_registered(&self, root: NodeId) -> Set<ScopeId> {
        match self.base {
            Some(b) => b.registered(root),
            None => Set::empty(),
        }
    }

    /// The shared links of the memtable.
    pub closed spec fn mem_shared(&self) -> Map<NodeId, NodeId> {
        self.mem.shared_links()
    }

    /// The links of `scope`'s overlay in the memtable.
    pub closed spec fn mem_overlay(&self, scope: ScopeId) -> Map<NodeId, NodeId> {
        self.mem.overlay_links(scope)
    }

    /// Scopes the memtable registers on the shared root `root`.
    pub closed spec fn mem_registered(&self, root: NodeId) -> Set<ScopeId> {
        self.mem.registered(root)
    }

    /// Scopes to notify when the shared root `root` is absorbed.
    pub open spec fn registered(&self, root: NodeId) -> Set<ScopeId> {
        self.mem_registered(root).union(self.base_registered(root))
    }

    /// Neither the memtable's registry nor the base's overlay connects `scope`
    /// with the shared root `c`.
    pub open spec fn unnoticed(&self, scope: ScopeId, c: NodeId) -> bool {
        &&& self.shared(c) == c
        &&& !self.mem_registered(c).contains(scope)
        &&& untouched(self.base_shared(), self.base_overlay(scope), c)
    }

    /// Shared-tier root of `x`.
    pub open spec fn shared(&self, x: NodeId) -> NodeId {
        composed(self.mem_shared(), self.base_shared(), x)
    }

    /// Root of the shared root `x` in `scope`'s overlay.
    pub open spec fn overlay(&self, scope: ScopeId, x: NodeId) -> NodeId {
        composed(self.mem_overlay(scope), self.base_overlay(scope), x)
    }

    /// Representative of `x`'s component as `scope` sees it.
    pub open spec fn root_in(&self, scope: ScopeId, x: NodeId) -> NodeId {
        if scope == GLOBAL_SCOPE {
            self.shared(x)
        } else {
            self.overlay(scope, self.shared(x))
        }
    }

    /// No overlay link of `scope` has an end in the shared component of `c`.
    pub open spec fn lone(&self, scope: ScopeId, c: NodeId) -> bool {
        forall|k: NodeId|
            (#[trigger] self.overlay(scope, k)) != k ==> self.shared(k) != c && self.shared(
                self.overlay(scope, k),
            ) != c
    }

    /// Overlay elements follow their shared components: an element and the
    /// shared root it belongs to are in the same overlay component.
    pub open spec fn elements_follow(&self, scope: ScopeId) -> bool {
        forall|k: NodeId|
            (#[trigger] self.overlay(scope, k)) != k ==> self.overlay(scope, self.shared(k))
                == self.overlay(scope, k) && self.overlay(
                scope,
                self.shared(self.overlay(scope, k)),
            ) == self.overlay(scope, k)
    }

    /// The facts that hold however the base was read.
    pub closed spec fn wf(&self) -> bool {
        &&& self.mem.wf()
        &&& self.mem.tracks() == self.member_index
        &&& self.base matches Some(b) ==> b.wf()
    }

    /// The base encodes a routing snapshot, the memtable only links composed
    /// roots, and every scope is registered on every shared root it glues
    /// since the base.
    pub closed spec fn consistent(&self) -> bool {
        &&& self.base matches Some(b) ==> valid_base(&*b)
        &&& above(self.mem_shared(), self.base_shared())
        &&& forall|s: ScopeId| above(#[trigger] self.mem_overlay(s), self.base_overlay(s))
        &&& forall|s: ScopeId, c: NodeId| #[trigger] self.unnoticed(s, c) ==> self.lone(s, c)
        &&& forall|s: ScopeId| #[trigger] self.elements_follow(s)
    }

    /// A scope nobody registered on a shared root glues nothing to it.
    proof fn unregistered_scopes_glue_nothing(&self, scope: ScopeId, c: NodeId)
        requires
            self.wf(),
            self.consistent(),
            self.shared(c) == c,
            !self.registered(c).contains(scope),
        ensures
            self.lone(scope, c),
    {
        self.consistent_maps();
        composition_is_exact(self.mem_shared(), self.base_shared(), c);
        if let Some(b) = self.base {
            assert(!b.registered(c).contains(scope));
            assert(untouched(b.shared_links(), b.overlay_links(scope), c));
        }
        assert(self.unnoticed(scope, c));
    }

    /// Same state up to compression of the memtable's links.
    pub closed spec fn agrees(&self, o: &ScopedForest) -> bool {
        &&& self.resolves_like(o)
        &&& self.member_index == o.member_index
        &&& self.events_applied == o.events_applied
        &&& self.scope_links == o.scope_links
        &&& self.fixups == o.fixups
        &&& self.folds == o.folds
    }

    /// Same base, and same memtable up to compression.
    pub closed spec fn resolves_like(&self, o: &ScopedForest) -> bool {
        &&& self.base == o.base
        &&& self.mem.agrees(&o.mem)
    }

    /// Forests that resolve alike answer alike.
    pub proof fn agreeing_forests_answer_alike(&self, o: &ScopedForest)
        requires
            self.resolves_like(o),
        ensures
            forall|x: NodeId| #[trigger] self.shared(x) == o.shared(x),
            forall|s: ScopeId, x: NodeId| #[trigger] self.overlay(s, x) == o.overlay(s, x),
            forall|s: ScopeId, x: NodeId| #[trigger] self.root_in(s, x) == o.root_in(s, x),
            forall|r: NodeId| #[trigger] self.mem_registered(r) == o.mem_registered(r),
            forall|r: NodeId| #[trigger] self.registered(r) == o.registered(r),
            o.consistent() ==> self.consistent(),
    {
        same_roots_compose_the_same(o.mem_shared(), self.mem_shared(), self.base_shared());
        assert forall|s: ScopeId|
            (above(o.mem_overlay(s), o.base_overlay(s)) ==> above(
                #[trigger] self.mem_overlay(s),
                self.base_overlay(s),
            )) && (forall|x: NodeId| #[trigger] self.overlay(s, x) == o.overlay(s, x)) by {
            assert(self.mem.overlay_like(&o.mem, s));
            same_roots_compose_the_same(o.mem_overlay(s), self.mem_overlay(s), self.base_overlay(s));
        }
        if o.consistent() {
            assert forall|s: ScopeId, c: NodeId| #[trigger] self.unnoticed(
                s,
                c,
            ) implies self.lone(s, c) by {
                assert(self.mem_registered(c) == o.mem_registered(c));
                assert(o.unnoticed(s, c));
                assert(o.lone(s, c));
                assert forall|k: NodeId| (#[trigger] self.overlay(s, k)) != k implies self.shared(k)
                    != c && self.shared(self.overlay(s, k)) != c by {
                    assert(o.overlay(s, k) != k);
                }
            }
            assert forall|s: ScopeId| #[trigger] self.elements_follow(s) by {
                assert(o.elements_follow(s));
                assert forall|k: NodeId| (#[trigger] self.overlay(s, k)) != k implies self.overlay(
                    s,
                    self.shared(k),
                ) == self.overlay(s, k) && self.overlay(s, self.shared(self.overlay(s, k)))
                    == self.overlay(s, k) by {
                    assert(o.overlay(s, k) != k);
                }
            }
        }
    }

    /// What the maps of a consistent forest satisfy.
    proof fn consistent_maps(&self)
        requires
            self.wf(),
            self.consistent(),
        ensures
            descending(self.mem_shared()),
            resolved(self.base_shared()),
            forall|s: ScopeId| #[trigger] descending(self.mem_overlay(s)),
            forall|s: ScopeId| #[trigger] resolved(self.base_overlay(s)),
    {
        self.mem.links_descend();
        assert forall|s: ScopeId| #[trigger] descending(self.mem_overlay(s)) by {
            assert(descending(self.mem.overlay_links(s)));
        }
        assert forall|s: ScopeId| #[trigger] resolved(self.base_overlay(s)) by {
            if let Some(b) = self.base {
                assert(resolved(b.overlay_links(s)));
            }
        }
    }

    /// The forest answers as `events`, applied in order to an empty one, say.
    pub open spec fn follows(&self, events: Seq<EdgeEvent>) -> bool {
        forall|s: ScopeId, x: NodeId| #[trigger] self.root_in(s, x) == root_after(events, s, x)
    }

    pub fn new() -> (f: ScopedForest)
        ensures
            f.wf(),
            f.consistent(),
            f.indexed(),
            f.follows(Seq::empty()),
            f.is_empty(false),
            !f.has_base(),
            f.mem_is_fresh(),
            !f.tracking(),
            f.event_count() == 0,
            f.scope_link_count() == 0,
            f.fixup_count() == 0,
            f.fold_count() == 0,
            f.merge_count() == 0,
    {
        let f = ScopedForest {
            base: None,
            mem: Memtable::new(false),
            member_index: false,
            events_applied: 0,
            scope_links: 0,
            fixups: 0,
            folds: 0,
        };
        proof {
            f.bare_base_is_consistent();
        }
        f
    }

    /// Build a forest whose committed state is served from `base`; the in-heap
    /// maps become the memtable of everything applied after it.
    pub fn with_base(base: Arc<dyn RoutingBase>) -> (f: ScopedForest)
        requires
            base.wf(),
        ensures
            f.wf(),
            f.indexed(),
            valid_base(&*base) ==> f.consistent(),
            f.serves(&*base),
            f.lists_members_as(&*base),
            f.is_empty(false),
            f.has_base(),
            f.mem_is_fresh(),
            !f.tracking(),
            f.event_count() == 0,
            f.scope_link_count() == 0,
            f.fixup_count() == 0,
            f.fold_count() == 0,
            f.merge_count() == 0,
    {
        let attached = Some(base);
        let f = ScopedForest {
            base: attached,
            mem: Memtable::new(false),
            member_index: false,
            events_applied: 0,
            scope_links: 0,
            fixups: 0,
            folds: 0,
        };
        proof {
            if valid_base(&*base) {
                f.bare_base_is_consistent();
            }
        }
        f
    }

    /// `b` is the committed state answers are composed over.
    pub closed spec fn serves<B: RoutingBase + ?Sized>(&self, b: &B) -> bool {
        &&& self.base is Some
        &&& self.base_shared() == b.shared_links()
        &&& forall|s: ScopeId| #[trigger] self.base_overlay(s) == b.overlay_links(s)
        &&& forall|r: NodeId| #[trigger] self.base_registered(r) == b.registered(r)
    }

    /// Nothing was applied since the base.
    pub closed spec fn is_empty(&self, member_index: bool) -> bool {
        &&& self.member_index == member_index
        &&& self.mem.is_fresh(member_index)
        &&& self.events_applied == 0
        &&& self.scope_links == 0
        &&& self.fixups == 0
        &&& self.folds == 0
    }

    /// An empty memtable over a routing snapshot is consistent, and answers
    /// what the snapshot says.
    proof fn bare_base_is_consistent(&self)
        requires
            self.wf(),
            self.mem.is_fresh(self.member_index),
            self.base matches Some(b) ==> valid_base(&*b),
        ensures
            self.consistent(),
            self.base is None ==> self.follows(Seq::empty()),
    {
        assert forall|x: NodeId| #[trigger] self.shared(x) == step_up(self.base_shared(), x) by {}
        assert forall|s: ScopeId, x: NodeId| #[trigger]
            self.overlay(s, x) == step_up(self.base_overlay(s), x) by {}
        assert forall|s: ScopeId, c: NodeId| #[trigger] self.unnoticed(s, c) implies self.lone(
            s,
            c,
        ) by {}
        assert forall|s: ScopeId| #[trigger] self.elements_follow(s) by {
            if let Some(b) = self.base {
                assert(settled(b.shared_links(), b.overlay_links(s)));
            }
        }
    }

    /// Apply one edge event to in-memory topology.
    pub fn apply(&mut self, event: &EdgeEvent)
        requires
            old(self).wf(),
        ensures
            final(self).wf(),
            old(self).indexed() ==> final(self).indexed(),
            old(self).consistent() ==> final(self).consistent() && Self::joins_for(
                old(self),
                final(self),
                event.visibility.audience(),
                event.src,
                event.dst,
            ),
            old(self).consistent() ==> forall|events: Seq<EdgeEvent>|
                old(self).follows(events) ==> #[trigger] final(self).follows(events.push(*event)),
            final(self).event_count() == counted(old(self).event_count(), 1),
            old(self).consistent() ==> final(self).counts_edge(
                old(self),
                event.visibility.audience(),
                event.src,
                event.dst,
            ),
            final(self).base_is(old(self)),
            final(self).has_base() == old(self).has_base(),
            final(self).tracking() == old(self).tracking(),
            final(self).base_lists_members() == old(self).base_lists_members(),
            final(self).base_members_covered() == old(self).base_members_covered(),
    {
        let scopes: Option<Vec<ScopeId>> = event.visibility.scopes();
        match &scopes {
            None => self.apply_global(event.src, event.dst),
            Some(scopes) => {
                proof {
                    first_occurrences_keep_every_id(event.visibility->Scoped_0@);
                }
                self.apply_scoped(event.src, event.dst, scopes)
            },
        }
        let ghost applied = *self;
        self.events_applied = self.events_applied.wrapping_add(1);
        proof {
            if old(self).consistent() {
                self.agreeing_forests_answer_alike(&applied);
                assert(Self::joins_for(
                    old(self),
                    &applied,
                    event.visibility.audience(),
                    event.src,
                    event.dst,
                ));
                assert forall|events: Seq<EdgeEvent>| old(self).follows(events) implies #[trigger]
                    self.follows(events.push(*event)) by {
                    let more = events.push(*event);
                    assert(more.drop_last() =~= events);
                    assert forall|s: ScopeId, x: NodeId| #[trigger]
                        self.root_in(s, x) == root_after(more, s, x) by {
                        assert(old(self).root_in(s, x) == root_after(events, s, x));
                        assert(old(self).root_in(s, event.src) == root_after(
                            events,
                            s,
                            event.src,
                        ));
                        assert(old(self).root_in(s, event.dst) == root_after(
                            events,
                            s,
                            event.dst,
                        ));
                        assert(applied.root_in(s, x) == self.root_in(s, x));
                    }
                }
            }
        }
    }

    /// Events applied so far.
    pub closed spec fn event_count(&self) -> u64 {
        self.events_applied
    }

    /// The committed state is the same.
    pub closed spec fn base_is(&self, o: &ScopedForest) -> bool {
        self.base == o.base && self.member_index == o.member_index && self.folds == o.folds
    }

    /// Staying over one committed state is an equivalence.
    pub proof fn base_stays(&self, mid: &ScopedForest, start: &ScopedForest)
        requires
            self.base_is(mid),
            mid.base_is(start),
        ensures
            self.base_is(start),
            start.base_is(self),
    {
    }

    /// A forest is over its own committed state.
    pub proof fn base_is_its_own(&self)
        ensures
            self.base_is(self),
    {
    }

    /// Component representative of `node` as seen by `scope`: the lowest graph
    /// id in that component.
    pub fn scope_root(&mut self, scope: ScopeId, node: NodeId) -> (r: NodeId)
        requires
            old(self).wf(),
        ensures
            r == old(self).root_in(scope, node),
            final(self).wf(),
            final(self).agrees(old(self)),
            forall|s: ScopeId, x: NodeId| #[trigger]
                final(self).root_in(s, x) == old(self).root_in(s, x),
            old(self).consistent() ==> final(self).consistent(),
            old(self).indexed() ==> final(self).indexed(),
    {
        let g: NodeId = self.shared_root(node, false);
        let ghost mid = *self;
        proof {
            self.agreeing_forests_answer_alike(old(self));
        }
        if scope == GLOBAL_SCOPE {
            return g;
        }
        let r: NodeId = self.overlay_root(scope, g, false);
        proof {
            Memtable::agreement_chains(&old(self).mem, &mid.mem, &self.mem);
            self.agreeing_forests_answer_alike(old(self));
        }
        r
    }

    /// Whether `u` and `v` are connected in `scope`'s view.
    pub fn connected(&mut self, scope: ScopeId, u: NodeId, v: NodeId) -> (r: bool)
        requires
            old(self).wf(),
        ensures
            r == (old(self).root_in(scope, u) == old(self).root_in(scope, v)),
            final(self).wf(),
            final(self).agrees(old(self)),
            forall|s: ScopeId, x: NodeId| #[trigger]
                final(self).root_in(s, x) == old(self).root_in(s, x),
            old(self).consistent() ==> final(self).consistent(),
            old(self).indexed() ==> final(self).indexed(),
    {
        let ru: NodeId = self.scope_root(scope, u);
        let ghost mid = *self;
        proof {
            self.agreeing_forests_answer_alike(old(self));
        }
        let rv: NodeId = self.scope_root(scope, v);
        proof {
            Memtable::agreement_chains(&old(self).mem, &mid.mem, &self.mem);
            self.agreeing_forests_answer_alike(old(self));
        }
        ru == rv
    }

    // --- composed resolution (base, then memtable) ------------------------
    //
    // Memtable keys are always composed roots, so a node that already has a
    // memtable parent cannot also be stored in the base: one memtable walk
    // settles it, and only a memtable-unknown node needs a base probe.

    /// Shared-tier root of `node`, composing base and memtable.
    fn shared_root(&mut self, node: NodeId, compress: bool) -> (r: NodeId)
        requires
            old(self).wf(),
        ensures
            r == old(self).shared(node),
            final(self).wf(),
            final(self).agrees(old(self)),
            old(self).indexed() ==> final(self).indexed(),
    {
        let m: NodeId = self.mem.shared_find(node, compress);
        if m != node {
            return m;
        }
        let parent: Option<NodeId> = match &self.base {
            Some(base) => base.shared_parent(node),
            None => None,
        };
        let ghost halfway = self.mem;
        match parent {
            Some(b) => {
                let r: NodeId = self.mem.shared_find(b, compress);
                proof {
                    Memtable::agreement_chains(&old(self).mem, &halfway, &self.mem);
                }
                r
            },
            None => node,
        }
    }

    /// Overlay root of `shared_root` within `scope`, composing base and
    /// memtable. `shared_root` must already be shared-composed.
    fn overlay_root(&mut self, scope: ScopeId, shared_root: NodeId, compress: bool) -> (r: NodeId)
        requires
            old(self).wf(),
        ensures
            r == old(self).overlay(scope, shared_root),
            final(self).wf(),
            final(self).agrees(old(self)),
            final(self).mem_shared() == old(self).mem_shared(),
            old(self).indexed() ==> final(self).indexed(),
    {
        let m: NodeId = self.mem.overlay_find(scope, shared_root, compress);
        if m != shared_root {
            return m;
        }
        let parent: Option<NodeId> = match &self.base {
            Some(base) => base.overlay_parent(scope, shared_root),
            None => None,
        };
        proof {
            assert(self.mem.overlay_like(&old(self).mem, scope));
        }
        let ghost halfway = self.mem;
        match parent {
            Some(b) => {
                let r: NodeId = self.mem.overlay_find(scope, b, compress);
                proof {
                    Memtable::agreement_chains(&old(self).mem, &halfway, &self.mem);
                }
                r
            },
            None => shared_root,
        }
    }

    /// Where merge edges are tracked, they cover every component.
    pub closed spec fn indexed(&self) -> bool {
        self.mem.indexed()
    }

    /// `after` is `before` with every audience member seeing `u` and `v`
    /// joined, and nobody else seeing a difference.
    pub open spec fn joins_for(
        before: &ScopedForest,
        after: &ScopedForest,
        audience: Option<Seq<ScopeId>>,
        u: NodeId,
        v: NodeId,
    ) -> bool {
        forall|s: ScopeId, x: NodeId| #[trigger]
            after.root_in(s, x) == (if audience is None || audience->Some_0.contains(s) {
                joined(before.root_in(s, x), before.root_in(s, u), before.root_in(s, v))
            } else {
                before.root_in(s, x)
            })
    }

    /// The scopes in which a global edge between `u` and `v` joins two overlay
    /// components: those keyed on the shared root that it absorbs.
    pub open spec fn due_fixups(&self, u: NodeId, v: NodeId) -> Set<ScopeId> {
        Set::new(
            |s: ScopeId|
                self.registered(higher(self.shared(u), self.shared(v))).contains(s)
                    && self.overlay(s, self.shared(u)) != self.overlay(s, self.shared(v)),
        )
    }

    /// The counters after an edge between `u` and `v` for `audience`: one merge
    /// for a global edge that joins two shared components, with a fix-up for
    /// each scope that has to be told; one overlay link per scope otherwise.
    pub open spec fn counts_edge(
        &self,
        before: &ScopedForest,
        audience: Option<Seq<ScopeId>>,
        u: NodeId,
        v: NodeId,
    ) -> bool {
        match audience {
            None => {
                &&& self.merge_count() == before.merge_count() + if before.shared(u)
                    == before.shared(v) {
                    0int
                } else {
                    1
                }
                &&& self.fixup_count() == counted(
                    before.fixup_count(),
                    before.due_fixups(u, v).len(),
                )
                &&& self.scope_link_count() == before.scope_link_count()
            },
            Some(scopes) => {
                &&& self.merge_count() == before.merge_count()
                &&& self.fixup_count() == before.fixup_count()
                &&& self.scope_link_count() == counted(before.scope_link_count(), scopes.len())
            },
        }
    }

    fn apply_global(&mut self, u: NodeId, v: NodeId)
        requires
            old(self).wf(),
        ensures
            old(self).consistent() ==> final(self).counts_edge(old(self), None, u, v),
            final(self).wf(),
            old(self).indexed() ==> final(self).indexed(),
            old(self).consistent() ==> final(self).consistent() && Self::joins_for(
                old(self),
                final(self),
                None,
                u,
                v,
            ),
            final(self).base == old(self).base,
            final(self).same_setup(old(self)),
    {
        let ghost start = *self;
        // Resolve through the base first so the memtable only ever links
        // composed roots.
        let ru: NodeId = self.shared_root(u, true);
        let ghost one = *self;
        proof {
            self.agreeing_forests_answer_alike(&start);
        }
        let rv: NodeId = self.shared_root(v, true);
        let ghost two = *self;
        proof {
            self.agreeing_forests_answer_alike(&one);
            assert(two.consistent() == two.consistent());
            if start.consistent() {
                two.consistent_maps();
                composition_is_exact(two.mem_shared(), two.base_shared(), u);
                composition_is_exact(two.mem_shared(), two.base_shared(), v);
                assert(two.shared(u) == ru && two.shared(v) == rv);
                assert(root_of(two.mem_shared(), ru) == ru);
                assert(root_of(two.mem_shared(), rv) == rv);
            }
        }
        let merge: Merge = match self.mem.shared_union(ru, rv) {
            Some(merge) => merge,
            None => {
                proof {
                    self.agreeing_forests_answer_alike(&two);
                    if start.consistent() {
                        assert(start.due_fixups(u, v) =~= Set::<ScopeId>::empty());
                    }
                }
                return ;
            },
        };
        // Root `merge.child` no longer exists in the shared tier; tell every
        // scope that keyed overlay state on it, from the memtable registry and
        // from the base's registry index.
        let ghost three = *self;
        let mut scopes: Vec<ScopeId> = self.mem.take_registered(merge.child);
        if let Some(base) = &self.base {
            let listed: Vec<ScopeId> = base.scopes_for_root(merge.child).to_vec();
            extend_distinct(&mut scopes, &listed);
        }
        proof {
            assert(scopes@.to_set() =~= two.registered(merge.child));
        }
        let ghost four = *self;
        proof {
            assert forall|s: ScopeId| #[trigger] four.mem_overlay(s) == two.mem_overlay(s) by {}
            assert forall|s: ScopeId, x: NodeId| #[trigger]
                four.overlay(s, x) == two.overlay(s, x) by {}
            assert(two.consistent() ==> four.notified(
                &two,
                scopes@.take(0),
                merge.child,
                merge.parent,
            ));
        }
        let mut i: usize = 0;
        let ghost mut fixed: Set<ScopeId> = Set::empty();
        while i < scopes.len()
            invariant
                i <= scopes.len(),
                scopes@.no_duplicates(),
                self.wf(),
                start.indexed() ==> self.indexed(),
                self.base == four.base,
                self.same_setup(&four),
                self.mem.merge_count() == four.mem.merge_count(),
                fixed.finite(),
                two.consistent() ==> self.fixups == counted(four.fixups, fixed.len()),
                forall|s: ScopeId| #[trigger]
                    fixed.contains(s) <==> scopes@.take(i as int).contains(s) && two.overlay(
                        s,
                        merge.child,
                    ) != two.overlay(s, merge.parent),
                self.mem.shared_links() == four.mem.shared_links(),
                forall|r: NodeId| #[trigger] self.mem.registered(r) == four.mem.registered(r),
                two.wf(),
                two.consistent() ==> self.notified(
                    &two,
                    scopes@.take(i as int),
                    merge.child,
                    merge.parent,
                ),
                four.base == two.base,
                four.same_setup(&start),
            decreases scopes.len() - i,
        {
            let scope: ScopeId = scopes[i];
            let ghost before = *self;
            proof {
                assert(!scopes@.take(i as int).contains(scope)) by {
                    if scopes@.take(i as int).contains(scope) {
                        let j = scopes@.take(i as int).index_of(scope);
                        assert(scopes@[j] == scopes@[i as int]);
                    }
                }
            }
            // Compose the overlay operands too: either endpoint's overlay
            // class may live in the base.
            let a: NodeId = self.overlay_root(scope, merge.child, true);
            let ghost mid = *self;
            let b: NodeId = self.overlay_root(scope, merge.parent, true);
            proof {
                mid.agreeing_forests_answer_alike(&before);
                self.agreeing_forests_answer_alike(&mid);
                Memtable::agreement_chains(&before.mem, &mid.mem, &self.mem);
            }
            let ghost ready = *self;
            if a != b {
                self.mem.overlay_union(scope, a, b);
                self.fixups = self.fixups.wrapping_add(1);
            }
            proof {
                if two.consistent() {
                    self.mem.links_descend();
                    assert(descending(self.mem.overlay_links(scope)));
                    Self::notify_step(
                        &two,
                        &before,
                        &ready,
                        self,
                        scopes@.take(i as int),
                        scope,
                        merge.child,
                        merge.parent,
                    );
                }
                let seen = scopes@.take(i as int);
                assert(scopes@.take(i + 1) =~= seen.push(scope));
                assert(!fixed.contains(scope));
                assert forall|s: ScopeId| scopes@.take(i + 1).contains(s) <==> seen.contains(s)
                    || s == scope by {
                    if seen.contains(s) {
                        let j = seen.index_of(s);
                        assert(scopes@.take(i + 1)[j] == s);
                    }
                    assert(scopes@.take(i + 1)[i as int] == scope);
                }
                if two.overlay(scope, merge.child) != two.overlay(scope, merge.parent) {
                    fixed = fixed.insert(scope);
                }
            }
            i += 1;
        }
        let ghost five = *self;
        if scopes.len() > 0 {
            self.mem.register(merge.parent, &scopes);
        }
        proof {
            assert(scopes@.take(i as int) =~= scopes@);
            assert forall|s: ScopeId| #[trigger] self.mem_overlay(s) == five.mem_overlay(s) by {}
            assert forall|s: ScopeId, x: NodeId| #[trigger]
                self.overlay(s, x) == five.overlay(s, x) by {}
            if start.consistent() {
                assert(start.due_fixups(u, v) =~= fixed) by {
                    assert(start.registered(merge.child) == two.registered(merge.child));
                    assert forall|s: ScopeId| start.due_fixups(u, v).contains(s)
                        <==> #[trigger] fixed.contains(s) by {
                        assert(two.overlay(s, ru) == start.overlay(s, ru));
                        assert(two.overlay(s, rv) == start.overlay(s, rv));
                        assert(scopes@.to_set().contains(s) == scopes@.contains(s));
                    }
                }
                if scopes.len() == 0 {
                    assert(scopes@.to_set() =~= Set::<ScopeId>::empty());
                }
                assert(self.mem_registered(merge.parent) =~= two.mem_registered(
                    merge.parent,
                ).union(scopes@.to_set()));
                assert forall|r: NodeId|
                    r != merge.child && r != merge.parent implies #[trigger] self.mem_registered(r)
                    == two.mem_registered(r) by {
                    assert(self.mem.registered(r) == five.mem.registered(r));
                    assert(five.mem.registered(r) == four.mem.registered(r));
                    assert(four.mem.registered(r) == three.mem.registered(r));
                    assert(three.mem.registered(r) == two.mem.registered(r));
                }
                Self::global_merge_reaches_everybody(
                    &two,
                    self,
                    scopes@,
                    u,
                    v,
                    merge.child,
                    merge.parent,
                );
                assert forall|s: ScopeId, x: NodeId| #[trigger]
                    self.root_in(s, x) == joined(
                        start.root_in(s, x),
                        start.root_in(s, u),
                        start.root_in(s, v),
                    ) by {
                    assert(two.root_in(s, x) == one.root_in(s, x));
                    assert(one.root_in(s, x) == start.root_in(s, x));
                    assert(two.root_in(s, u) == one.root_in(s, u));
                    assert(one.root_in(s, u) == start.root_in(s, u));
                    assert(two.root_in(s, v) == one.root_in(s, v));
                    assert(one.root_in(s, v) == start.root_in(s, v));
                }
            }
        }
    }

    fn apply_scoped(&mut self, u: NodeId, v: NodeId, scopes: &Vec<ScopeId>)
        requires
            old(self).wf(),
            scopes@.no_duplicates(),
            !scopes@.contains(GLOBAL_SCOPE),
        ensures
            final(self).wf(),
            old(self).indexed() ==> final(self).indexed(),
            old(self).consistent() ==> final(self).consistent() && Self::joins_for(
                old(self),
                final(self),
                Some(scopes@),
                u,
                v,
            ),
            final(self).base == old(self).base,
            final(self).member_index == old(self).member_index,
            final(self).events_applied == old(self).events_applied,
            final(self).fixups == old(self).fixups,
            final(self).folds == old(self).folds,
            final(self).mem.merge_count() == old(self).mem.merge_count(),
            final(self).scope_links == counted(old(self).scope_links, scopes@.len()),
    {
        let ghost start = *self;
        let ru: NodeId = self.shared_root(u, true);
        let ghost one = *self;
        proof {
            self.agreeing_forests_answer_alike(&start);
        }
        let rv: NodeId = self.shared_root(v, true);
        let ghost two = *self;
        proof {
            self.agreeing_forests_answer_alike(&one);
            if start.consistent() {
                two.consistent_maps();
                composition_is_exact(two.mem_shared(), two.base_shared(), u);
                composition_is_exact(two.mem_shared(), two.base_shared(), v);
            }
        }
        let mut i: usize = 0;
        while i < scopes.len()
            invariant
                i <= scopes.len(),
                scopes@.no_duplicates(),
                self.wf(),
                start.indexed() ==> self.indexed(),
                self.base == two.base,
                self.member_index == two.member_index,
                self.events_applied == two.events_applied,
                self.fixups == two.fixups,
                self.folds == two.folds,
                self.scope_links == counted(two.scope_links, i as nat),
                self.mem.merge_count() == two.mem.merge_count(),
                self.mem.shared_links() == two.mem.shared_links(),
                forall|r: NodeId| #[trigger] self.mem.registered(r) == two.mem.registered(r),
                two.wf(),
                two.consistent() ==> self.notified(&two, scopes@.take(i as int), ru, rv),
            decreases scopes.len() - i,
        {
            let scope: ScopeId = scopes[i];
            let ghost before = *self;
            proof {
                assert(!scopes@.take(i as int).contains(scope)) by {
                    if scopes@.take(i as int).contains(scope) {
                        let j = scopes@.take(i as int).index_of(scope);
                        assert(scopes@[j] == scopes@[i as int]);
                    }
                }
            }
            let a: NodeId = self.overlay_root(scope, ru, true);
            let ghost mid = *self;
            let b: NodeId = self.overlay_root(scope, rv, true);
            proof {
                mid.agreeing_forests_answer_alike(&before);
                self.agreeing_forests_answer_alike(&mid);
                Memtable::agreement_chains(&before.mem, &mid.mem, &self.mem);
            }
            let ghost ready = *self;
            self.mem.overlay_union(scope, a, b);
            self.scope_links = self.scope_links.wrapping_add(1);
            proof {
                if two.consistent() {
                    self.mem.links_descend();
                    assert(descending(self.mem.overlay_links(scope)));
                    Self::notify_step(
                        &two,
                        &before,
                        &ready,
                        self,
                        scopes@.take(i as int),
                        scope,
                        ru,
                        rv,
                    );
                }
                assert(scopes@.take(i + 1) =~= scopes@.take(i as int).push(scope));
            }
            i += 1;
        }
        let ghost five = *self;
        self.mem.register(ru, scopes);
        let ghost six = *self;
        self.mem.register(rv, scopes);
        proof {
            assert(scopes@.take(i as int) =~= scopes@);
            assert forall|s: ScopeId| #[trigger] self.mem_overlay(s) == five.mem_overlay(s) by {}
            assert forall|s: ScopeId, x: NodeId| #[trigger]
                self.overlay(s, x) == five.overlay(s, x) by {}
            if start.consistent() {
                assert forall|r: NodeId| #[trigger]
                    self.mem_registered(r) == (if r == ru || r == rv {
                        two.mem_registered(r).union(scopes@.to_set())
                    } else {
                        two.mem_registered(r)
                    }) by {
                    assert(five.mem.registered(r) == two.mem.registered(r));
                    assert(r != ru ==> six.mem.registered(r) == five.mem.registered(r));
                    assert(r != rv ==> self.mem.registered(r) == six.mem.registered(r));
                    assert(self.mem_registered(r) =~= (if r == ru || r == rv {
                        two.mem_registered(r).union(scopes@.to_set())
                    } else {
                        two.mem_registered(r)
                    }));
                }
                Self::scope_edge_stays_in_its_scopes(&two, self, scopes@, u, v);
                assert forall|s: ScopeId, x: NodeId| #[trigger]
                    self.root_in(s, x) == (if scopes@.contains(s) {
                        joined(start.root_in(s, x), start.root_in(s, u), start.root_in(s, v))
                    } else {
                        start.root_in(s, x)
                    }) by {
                    assert(two.root_in(s, x) == one.root_in(s, x));
                    assert(one.root_in(s, x) == start.root_in(s, x));
                    assert(two.root_in(s, u) == one.root_in(s, u));
                    assert(one.root_in(s, u) == start.root_in(s, u));
                    assert(two.root_in(s, v) == one.root_in(s, v));
                    assert(one.root_in(s, v) == start.root_in(s, v));
                }
            }
        }
    }

    /// Joining two overlay components in the listed scopes, and registering
    /// those scopes on both shared roots, is seen by those scopes alone.
    proof fn scope_edge_stays_in_its_scopes(
        before: &ScopedForest,
        after: &ScopedForest,
        told: Seq<ScopeId>,
        u: NodeId,
        v: NodeId,
    )
        requires
            before.wf(),
            before.consistent(),
            after.wf(),
            after.base == before.base,
            after.mem_shared() == before.mem_shared(),
            !told.contains(GLOBAL_SCOPE),
            after.notified(before, told, before.shared(u), before.shared(v)),
            forall|r: NodeId| #[trigger]
                after.mem_registered(r) == (if r == before.shared(u) || r == before.shared(v) {
                    before.mem_registered(r).union(told.to_set())
                } else {
                    before.mem_registered(r)
                }),
        ensures
            after.consistent(),
            Self::joins_for(before, after, Some(told), u, v),
    {
        before.consistent_maps();
        let links = before.mem_shared();
        let base = before.base_shared();
        let ru = before.shared(u);
        let rv = before.shared(v);
        composition_is_exact(links, base, u);
        composition_is_exact(links, base, v);
        assert forall|x: NodeId| #[trigger] after.shared(x) == before.shared(x) by {}
        assert forall|s: ScopeId, c: NodeId| #[trigger] after.unnoticed(s, c) implies after.lone(
            s,
            c,
        ) by {
            assert(before.unnoticed(s, c));
            assert(before.lone(s, c));
            let a = before.overlay(s, ru);
            let b = before.overlay(s, rv);
            if told.contains(s) {
                assert(told.to_set().contains(s));
                assert(c != ru && c != rv);
                assert(before.shared(a) != c && before.shared(b) != c);
            }
            assert forall|k: NodeId| (#[trigger] after.overlay(s, k)) != k implies after.shared(k)
                != c && after.shared(after.overlay(s, k)) != c by {
                if before.overlay(s, k) != k {
                    assert(before.shared(k) != c && before.shared(before.overlay(s, k)) != c);
                }
            }
        }
        assert forall|s: ScopeId| #[trigger] after.elements_follow(s) by {
            let a = before.overlay(s, ru);
            let b = before.overlay(s, rv);
            assert(before.elements_follow(s));
            assert(before.overlay(s, before.shared(a)) == a) by {
                if a != ru {
                    assert(before.overlay(s, ru) != ru);
                }
            }
            assert(before.overlay(s, before.shared(b)) == b) by {
                if b != rv {
                    assert(before.overlay(s, rv) != rv);
                }
            }
            assert forall|k: NodeId| (#[trigger] after.overlay(s, k)) != k implies after.overlay(
                s,
                after.shared(k),
            ) == after.overlay(s, k) && after.overlay(s, after.shared(after.overlay(s, k)))
                == after.overlay(s, k) by {
                let was = before.overlay(s, k);
                if was != k {
                    assert(before.overlay(s, before.shared(k)) == was);
                    assert(before.overlay(s, before.shared(was)) == was);
                }
            }
        }
        assert forall|s: ScopeId, x: NodeId| #[trigger]
            after.root_in(s, x) == (if told.contains(s) {
                joined(before.root_in(s, x), before.root_in(s, u), before.root_in(s, v))
            } else {
                before.root_in(s, x)
            }) by {
            assert(after.overlay(s, after.shared(x)) == after.overlay(s, before.shared(x)));
        }
    }

    /// Construction-time settings and counters a resolution cannot change.
    pub closed spec fn same_setup(&self, o: &ScopedForest) -> bool {
        &&& self.member_index == o.member_index
        &&& self.events_applied == o.events_applied
        &&& self.scope_links == o.scope_links
        &&& self.folds == o.folds
    }

    /// The overlays after the scopes in `done` were told that `child` was
    /// absorbed into `parent`.
    spec fn notified(
        &self,
        before: &ScopedForest,
        done: Seq<ScopeId>,
        child: NodeId,
        parent: NodeId,
    ) -> bool {
        &&& forall|s: ScopeId| above(#[trigger] self.mem_overlay(s), self.base_overlay(s))
        &&& forall|s: ScopeId, x: NodeId| #[trigger]
            self.overlay(s, x) == (if done.contains(s) {
                joined(
                    before.overlay(s, x),
                    before.overlay(s, child),
                    before.overlay(s, parent),
                )
            } else {
                before.overlay(s, x)
            })
    }

    proof fn notify_step(
        start: &ScopedForest,
        before: &ScopedForest,
        ready: &ScopedForest,
        after: &ScopedForest,
        done: Seq<ScopeId>,
        scope: ScopeId,
        child: NodeId,
        parent: NodeId,
    )
        requires
            start.wf(),
            start.consistent(),
            before.notified(start, done, child, parent),
            !done.contains(scope),
            before.wf(),
            ready.wf(),
            ready.agrees(before),
            before.base == start.base,
            after.base == start.base,
            forall|s: ScopeId|
                s != scope ==> #[trigger] after.mem_overlay(s) == ready.mem_overlay(s),
            ({
                let a = before.overlay(scope, child);
                let b = before.overlay(scope, parent);
                ||| a == b && after.mem_overlay(scope) == ready.mem_overlay(scope)
                ||| descending(after.mem_overlay(scope)) && joins(
                    ready.mem_overlay(scope),
                    after.mem_overlay(scope),
                    a,
                    b,
                )
            }),
        ensures
            after.notified(start, done.push(scope), child, parent),
    {
        let done2 = done.push(scope);
        let a = before.overlay(scope, child);
        let b = before.overlay(scope, parent);
        start.consistent_maps();
        ready.mem.links_descend();
        ready.agreeing_forests_answer_alike(before);
        assert forall|s: ScopeId| above(#[trigger] ready.mem_overlay(s), ready.base_overlay(s)) by {
            assert(above(before.mem_overlay(s), before.base_overlay(s)));
            assert(ready.mem.overlay_like(&before.mem, s));
            same_roots_compose_the_same(
                before.mem_overlay(s),
                ready.mem_overlay(s),
                ready.base_overlay(s),
            );
        }
        assert(descending(ready.mem.overlay_links(scope)));
        assert(resolved(start.base_overlay(scope)));
        let links = ready.mem_overlay(scope);
        let base = start.base_overlay(scope);
        composition_is_exact(links, base, child);
        composition_is_exact(links, base, parent);
        assert(ready.overlay(scope, child) == a);
        assert(ready.overlay(scope, parent) == b);
        root_is_a_root(links, a);
        root_is_a_root(links, b);
        if a != b {
            composed_join(links, after.mem_overlay(scope), base, a, b);
        } else {
            same_roots_compose_the_same(links, after.mem_overlay(scope), base);
        }
        assert forall|s: ScopeId| above(#[trigger] after.mem_overlay(s), after.base_overlay(s)) by {
            assert(above(ready.mem_overlay(s), ready.base_overlay(s)));
        }
        assert(done2.contains(scope)) by {
            assert(done2[done.len() as int] == scope);
        }
        assert forall|s: ScopeId, x: NodeId| #[trigger]
            after.overlay(s, x) == (if done2.contains(s) {
                joined(start.overlay(s, x), start.overlay(s, child), start.overlay(s, parent))
            } else {
                start.overlay(s, x)
            }) by {
            assert(ready.overlay(s, x) == before.overlay(s, x));
            if s == scope {
                assert(before.overlay(s, x) == start.overlay(s, x));
                assert(before.overlay(s, child) == start.overlay(s, child));
                assert(before.overlay(s, parent) == start.overlay(s, parent));
            } else {
                assert(after.mem_overlay(s) == ready.mem_overlay(s));
                assert(after.overlay(s, x) == ready.overlay(s, x));
                assert(done2.contains(s) == done.contains(s)) by {
                    if done2.contains(s) {
                        let j = done2.index_of(s);
                        assert(done[j] == s);
                    }
                    if done.contains(s) {
                        let j = done.index_of(s);
                        assert(done2[j] == s);
                    }
                }
            }
        }
    }

    /// Absorbing one shared root into another, and telling exactly the scopes
    /// registered on it, joins the two components for everybody.
    proof fn global_merge_reaches_everybody(
        before: &ScopedForest,
        after: &ScopedForest,
        told: Seq<ScopeId>,
        u: NodeId,
        v: NodeId,
        child: NodeId,
        parent: NodeId,
    )
        requires
            before.wf(),
            before.consistent(),
            after.wf(),
            after.base == before.base,
            before.shared(u) != before.shared(v),
            child == higher(before.shared(u), before.shared(v)),
            parent == lower(before.shared(u), before.shared(v)),
            after.mem_shared().dom() == before.mem_shared().dom().insert(child),
            forall|y: NodeId|
                root_of(after.mem_shared(), y) == absorbed(
                    root_of(before.mem_shared(), y),
                    child,
                    parent,
                ),
            told.to_set() == before.registered(child),
            after.notified(before, told, child, parent),
            forall|r: NodeId|
                r != child && r != parent ==> #[trigger] after.mem_registered(r)
                    == before.mem_registered(r),
            after.mem_registered(parent) == before.mem_registered(parent).union(told.to_set()),
        ensures
            after.consistent(),
            Self::joins_for(before, after, None, u, v),
    {
        before.consistent_maps();
        after.mem.links_descend();
        let links = before.mem_shared();
        let base = before.base_shared();
        composition_is_exact(links, base, u);
        composition_is_exact(links, base, v);
        composed_join(links, after.mem_shared(), base, before.shared(u), before.shared(v));
        assert forall|x: NodeId| #[trigger] after.shared(x) == absorbed(
            before.shared(x),
            child,
            parent,
        ) by {}
        assert(before.shared(child) == child && before.shared(parent) == parent);
        assert forall|s: ScopeId, x: NodeId| #[trigger]
            after.root_in(s, x) == joined(
                before.root_in(s, x),
                before.root_in(s, u),
                before.root_in(s, v),
            ) by {
            if s != GLOBAL_SCOPE {
                let r = before.shared(x);
                let a = before.overlay(s, child);
                let b = before.overlay(s, parent);
                assert(before.overlay(s, r) == before.root_in(s, x));
                assert(after.overlay(s, after.shared(x)) == after.root_in(s, x));
                if told.contains(s) {
                    assert(after.overlay(s, parent) == joined(b, a, b));
                    assert(after.overlay(s, r) == joined(before.overlay(s, r), a, b));
                } else {
                    assert(!told.to_set().contains(s));
                    before.unregistered_scopes_glue_nothing(s, child);
                    assert(a == child) by {
                        if a != child {
                            assert(before.overlay(s, child) != child);
                        }
                    }
                    composition_is_exact(before.mem_overlay(s), before.base_overlay(s), parent);
                    assert(b <= parent);
                    composition_is_exact(links, base, x);
                    assert(before.shared(r) == r);
                    if r != child {
                        assert(before.overlay(s, r) != child) by {
                            if before.overlay(s, r) == child {
                                assert(before.overlay(s, r) != r);
                            }
                        }
                    }
                    assert(after.overlay(s, parent) == b);
                    assert(after.overlay(s, r) == before.overlay(s, r));
                }
            }
        }
        assert forall|s: ScopeId, c: NodeId| #[trigger] after.unnoticed(s, c) implies after.lone(
            s,
            c,
        ) by {
            let a = before.overlay(s, child);
            let b = before.overlay(s, parent);
            composition_is_exact(links, base, c);
            assert(c != child);
            assert(before.shared(c) == c);
            assert(!before.mem_registered(c).contains(s)) by {
                if c != parent {
                    assert(after.mem_registered(c) == before.mem_registered(c));
                }
            }
            assert(before.unnoticed(s, c));
            assert(before.lone(s, c));
            if c == parent {
                assert(!told.to_set().contains(s));
                assert(!told.contains(s));
                before.unregistered_scopes_glue_nothing(s, child);
            }
            assert(before.shared(a) != c && before.shared(b) != c || !told.contains(s)) by {
                if told.contains(s) {
                    assert(c != parent);
                    if a != child {
                        assert(before.overlay(s, child) != child);
                    }
                    if b != parent {
                        assert(before.overlay(s, parent) != parent);
                    }
                }
            }
            assert forall|k: NodeId| (#[trigger] after.overlay(s, k)) != k implies after.shared(k)
                != c && after.shared(after.overlay(s, k)) != c by {
                let was = before.overlay(s, k);
                assert(after.shared(k) == absorbed(before.shared(k), child, parent));
                assert(after.shared(after.overlay(s, k)) == absorbed(
                    before.shared(after.overlay(s, k)),
                    child,
                    parent,
                ));
                if was != k {
                    assert(before.shared(k) != c && before.shared(was) != c);
                }
            }
        }
        assert forall|s: ScopeId| #[trigger] after.elements_follow(s) by {
            let a = before.overlay(s, child);
            let b = before.overlay(s, parent);
            assert(before.elements_follow(s));
            if !told.contains(s) {
                assert(!told.to_set().contains(s));
                before.unregistered_scopes_glue_nothing(s, child);
            } else {
                // Either end is a live root or an element that follows one.
                assert(before.overlay(s, before.shared(a)) == a) by {
                    if a != child {
                        assert(before.overlay(s, child) != child);
                    }
                }
                assert(before.overlay(s, before.shared(b)) == b) by {
                    if b != parent {
                        assert(before.overlay(s, parent) != parent);
                    }
                }
            }
            assert forall|k: NodeId| (#[trigger] after.overlay(s, k)) != k implies after.overlay(
                s,
                after.shared(k),
            ) == after.overlay(s, k) && after.overlay(s, after.shared(after.overlay(s, k)))
                == after.overlay(s, k) by {
                let was = before.overlay(s, k);
                let now = after.overlay(s, k);
                let up = before.shared(k);
                let down = before.shared(now);
                assert(after.shared(k) == absorbed(up, child, parent));
                assert(after.shared(now) == absorbed(down, child, parent));
                if was != k {
                    assert(before.overlay(s, up) == was);
                    assert(before.overlay(s, before.shared(was)) == was);
                }
                assert(after.overlay(s, parent) == (if told.contains(s) {
                    joined(b, a, b)
                } else {
                    b
                }));
                assert(after.overlay(s, up) == (if told.contains(s) {
                    joined(before.overlay(s, up), a, b)
                } else {
                    before.overlay(s, up)
                }));
                assert(after.overlay(s, down) == (if told.contains(s) {
                    joined(before.overlay(s, down), a, b)
                } else {
                    before.overlay(s, down)
                }));
            }
        }
    }
}

// --- handing the forest out as a stream ------------------------------------

impl ScopedForest {
    /// Memtable links of the shared tier (`None`) or of a scope's overlay.
    pub open spec fn mem_at(&self, level: Option<ScopeId>) -> Map<NodeId, NodeId> {
        match level {
            None => self.mem_shared(),
            Some(s) => self.mem_overlay(s),
        }
    }

    /// Base links of the shared tier (`None`) or of a scope's overlay.
    pub open spec fn base_at(&self, level: Option<ScopeId>) -> Map<NodeId, NodeId> {
        match level {
            None => self.base_shared(),
            Some(s) => self.base_overlay(s),
        }
    }

    /// Composed root in the shared tier (`None`) or in a scope's overlay.
    pub open spec fn root_at(&self, level: Option<ScopeId>, x: NodeId) -> NodeId {
        match level {
            None => self.shared(x),
            Some(s) => self.overlay(s, x),
        }
    }

    /// Scopes with an overlay in the memtable.
    pub closed spec fn mem_scopes(&self) -> Set<ScopeId> {
        self.mem.overlays().dom()
    }

    /// Scopes with an overlay in the base.
    pub closed spec fn base_scopes(&self) -> Set<ScopeId> {
        match self.base {
            Some(b) => b.scope_list().to_set(),
            None => Set::empty(),
        }
    }

    /// The keys streamed for a level: all of them, or the memtable's alone.
    pub open spec fn keys_at(&self, level: Option<ScopeId>, whole: bool) -> Set<NodeId> {
        if whole {
            self.mem_at(level).dom().union(self.base_at(level).dom())
        } else {
            self.mem_at(level).dom()
        }
    }

    /// The scopes streamed: all of them, or the memtable's alone.
    pub open spec fn scopes_at(&self, whole: bool) -> Set<ScopeId> {
        if whole {
            self.mem_scopes().union(self.base_scopes())
        } else {
            self.mem_scopes()
        }
    }

    /// What is streamed for one key: its resolved pair, and for an overlay pair
    /// the live shared roots of both ends, so a future merge of either still
    /// notifies the scope.
    pub open spec fn key_events(&self, level: Option<ScopeId>, node: NodeId) -> Seq<SinkEvent> {
        let root = self.root_at(level, node);
        if root == node {
            Seq::empty()
        } else {
            match level {
                None => seq![SinkEvent::Shared { node, root }],
                Some(scope) => {
                    let a = self.shared(node);
                    let b = self.shared(root);
                    if a == b {
                        seq![
                            SinkEvent::Overlay { node, root },
                            SinkEvent::Registry { root: a, scope },
                        ]
                    } else {
                        seq![
                            SinkEvent::Overlay { node, root },
                            SinkEvent::Registry { root: a, scope },
                            SinkEvent::Registry { root: b, scope },
                        ]
                    }
                },
            }
        }
    }

    /// What is streamed for `keys`, in order.
    pub open spec fn level_events(&self, level: Option<ScopeId>, keys: Seq<NodeId>) -> Seq<
        SinkEvent,
    >
        decreases keys.len(),
    {
        if keys.len() == 0 {
            Seq::empty()
        } else {
            self.level_events(level, keys.drop_last()) + self.key_events(level, keys.last())
        }
    }

    /// What is streamed for `scopes`, in order.
    pub open spec fn scope_events(&self, scopes: Seq<ScopeId>, whole: bool) -> Seq<SinkEvent>
        decreases scopes.len(),
    {
        if scopes.len() == 0 {
            Seq::empty()
        } else {
            let scope = scopes.last();
            self.scope_events(scopes.drop_last(), whole).push(SinkEvent::ScopeStart { scope })
                + self.level_events(
                Some(scope),
                in_order(self.keys_at(Some(scope), whole)),
            ).push(SinkEvent::ScopeEnd { scope })
        }
    }

    /// The stream of the whole forest, or of its memtable alone: shared pairs
    /// in ascending node order, then scope by ascending scope with its overlay
    /// pairs in ascending node order.
    pub open spec fn stream(&self, whole: bool) -> Seq<SinkEvent> {
        self.level_events(None, in_order(self.keys_at(None, whole))) + self.scope_events(
            scopes_in_order(self.scopes_at(whole)),
            whole,
        )
    }

    proof fn levels_stream_alike(
        &self,
        o: &ScopedForest,
        level: Option<ScopeId>,
        keys: Seq<NodeId>,
    )
        requires
            forall|k: NodeId| #[trigger] self.key_events(level, k) == o.key_events(level, k),
        ensures
            self.level_events(level, keys) == o.level_events(level, keys),
        decreases keys.len(),
    {
        if keys.len() > 0 {
            self.levels_stream_alike(o, level, keys.drop_last());
        }
    }

    proof fn scopes_stream_alike(&self, o: &ScopedForest, scopes: Seq<ScopeId>, whole: bool)
        requires
            forall|level: Option<ScopeId>, k: NodeId| #[trigger]
                self.key_events(level, k) == o.key_events(level, k),
            forall|level: Option<ScopeId>, whole: bool| #[trigger]
                self.keys_at(level, whole) == o.keys_at(level, whole),
        ensures
            self.scope_events(scopes, whole) == o.scope_events(scopes, whole),
        decreases scopes.len(),
    {
        if scopes.len() > 0 {
            let level = Some(scopes.last());
            self.scopes_stream_alike(o, scopes.drop_last(), whole);
            assert(self.keys_at(level, whole) == o.keys_at(level, whole));
            self.levels_stream_alike(o, level, in_order(self.keys_at(level, whole)));
        }
    }

    /// **Reading does not change what is streamed**: forests that resolve alike
    /// stream the same, so an unchanged forest is written to the same bytes
    /// each time.
    pub proof fn an_unchanged_forest_streams_the_same(&self, o: &ScopedForest, whole: bool)
        requires
            self.resolves_like(o),
        ensures
            self.stream(whole) == o.stream(whole),
    {
        self.agreeing_forests_stream_alike(o);
        assert(self.keys_at(None, whole) == o.keys_at(None, whole));
        assert(self.scopes_at(whole) == o.scopes_at(whole));
        self.levels_stream_alike(o, None, in_order(self.keys_at(None, whole)));
        self.scopes_stream_alike(o, scopes_in_order(self.scopes_at(whole)), whole);
    }

    /// Forests that resolve alike stream alike.
    pub proof fn agreeing_forests_stream_alike(&self, o: &ScopedForest)
        requires
            self.resolves_like(o),
        ensures
            forall|level: Option<ScopeId>, k: NodeId| #[trigger]
                self.key_events(level, k) == o.key_events(level, k),
            forall|level: Option<ScopeId>, whole: bool| #[trigger]
                self.keys_at(level, whole) == o.keys_at(level, whole),
            forall|level: Option<ScopeId>| #[trigger]
                self.mem_at(level).dom() == o.mem_at(level).dom(),
            forall|whole: bool| #[trigger] self.scopes_at(whole) == o.scopes_at(whole),
    {
        self.agreeing_forests_answer_alike(o);
        assert forall|level: Option<ScopeId>, k: NodeId| #[trigger]
            self.key_events(level, k) == o.key_events(level, k) by {
            assert(self.root_at(level, k) == o.root_at(level, k));
        }
        assert forall|level: Option<ScopeId>| #[trigger]
            self.mem_at(level).dom() == o.mem_at(level).dom() by {
            if let Some(s) = level {
                assert(self.mem.overlay_like(&o.mem, s));
            }
        }
    }

    /// Agreement is an equivalence.
    pub proof fn agreement_is_reflexive(&self)
        ensures
            self.agrees(self),
    {
    }

    /// Agreeing forests resolve alike.
    pub proof fn agreement_resolves(&self, o: &ScopedForest)
        requires
            self.agrees(o),
        ensures
            self.resolves_like(o),
    {
    }

    /// Agreement chains.
    pub proof fn agreement_chains(a: &ScopedForest, b: &ScopedForest, c: &ScopedForest)
        requires
            b.agrees(a),
            c.agrees(b),
        ensures
            c.agrees(a),
    {
        Memtable::agreement_chains(&a.mem, &b.mem, &c.mem);
    }

    /// Stream one key.
    fn emit<S: SnapshotSink>(&mut self, sink: &mut S, level: Option<ScopeId>, node: NodeId)
        requires
            old(self).wf(),
            old(sink).wf(),
        ensures
            final(self).wf(),
            final(self).agrees(old(self)),
            old(self).indexed() ==> final(self).indexed(),
            final(sink).wf(),
            final(sink).setup() == old(sink).setup(),
            final(sink).received() == old(sink).received() + old(self).key_events(level, node),
    {
        match level {
            None => {
                let root: NodeId = self.shared_root(node, false);
                if root != node {
                    sink.shared_pair(node, root);
                }
            },
            Some(scope) => {
                let root: NodeId = self.overlay_root(scope, node, false);
                if root == node {
                    return ;
                }
                let ghost one = *self;
                proof {
                    one.agreeing_forests_answer_alike(old(self));
                }
                sink.overlay_pair(node, root);
                // Both endpoints are (possibly historical) shared roots. Record
                // them under their *live* shared roots so a future merge of one
                // still notifies this scope after the next cold start.
                let a: NodeId = self.shared_root(node, false);
                let ghost two = *self;
                proof {
                    two.agreeing_forests_answer_alike(&one);
                    Self::agreement_chains(old(self), &one, &two);
                }
                sink.registry_entry(a, scope);
                let b: NodeId = self.shared_root(root, false);
                proof {
                    Self::agreement_chains(old(self), &two, self);
                }
                if b != a {
                    sink.registry_entry(b, scope);
                }
            },
        }
    }

    closed spec fn base_stream_at(&self, level: Option<ScopeId>) -> Seq<(NodeId, NodeId)> {
        match self.base {
            Some(b) => match level {
                None => b.shared_stream(),
                Some(s) => b.overlay_stream(s),
            },
            None => Seq::empty(),
        }
    }

    closed spec fn base_rest_at(&self, level: Option<ScopeId>, c: PairCursor) -> Seq<
        (NodeId, NodeId),
    > {
        match self.base {
            Some(b) => match level {
                None => b.shared_rest(c),
                Some(s) => b.overlay_rest(s, c),
            },
            None => Seq::empty(),
        }
    }

    fn base_start(&self, level: Option<ScopeId>) -> (c: PairCursor)
        requires
            self.wf(),
        ensures
            self.base_rest_at(level, c) == self.base_stream_at(level),
    {
        match &self.base {
            Some(b) => match level {
                None => b.shared_start(),
                Some(s) => b.overlay_start(s),
            },
            None => PairCursor { positions: Vec::new() },
        }
    }

    fn base_next(&self, level: Option<ScopeId>, c: &mut PairCursor) -> (r: Option<
        (NodeId, NodeId),
    >)
        requires
            self.wf(),
        ensures
            (r is None) == (self.base_rest_at(level, *old(c)).len() == 0),
            r matches Some(p) ==> p == self.base_rest_at(level, *old(c)).first()
                && self.base_rest_at(level, *final(c)) == self.base_rest_at(
                level,
                *old(c),
            ).drop_first(),
    {
        match &self.base {
            Some(b) => match level {
                None => b.shared_next(c),
                Some(s) => b.overlay_next(s, c),
            },
            None => None,
        }
    }

    /// The memtable's keys of a level, ascending.
    fn mem_keys(&mut self, level: Option<ScopeId>) -> (keys: Vec<NodeId>)
        requires
            old(self).wf(),
        ensures
            strictly_ascending(keys@),
            keys@.to_set() == old(self).mem_at(level).dom(),
            final(self).wf(),
            final(self).agrees(old(self)),
            old(self).indexed() ==> final(self).indexed(),
    {
        match level {
            None => self.mem.shared_keys(),
            Some(s) => self.mem.overlay_keys(s),
        }
    }

    /// The keys streamed so far are the first `i` of the memtable and the first
    /// `j` of the base, in order, and what is left is larger.
    closed spec fn merged_so_far(
        done: Seq<NodeId>,
        mem: Seq<NodeId>,
        i: int,
        base: Seq<(NodeId, NodeId)>,
        j: int,
    ) -> bool {
        &&& strictly_ascending(done)
        &&& forall|x: NodeId| #[trigger]
            done.contains(x) <==> mem.take(i).contains(x) || has_key(base.take(j), x)
        &&& forall|d: int| 0 <= d < done.len() && i < mem.len() ==> #[trigger] done[d] < mem[i]
        &&& forall|d: int|
            0 <= d < done.len() && j < base.len() ==> #[trigger] done[d] < base[j].0
    }

    proof fn merged_mem_key(
        done: Seq<NodeId>,
        mem: Seq<NodeId>,
        i: int,
        base: Seq<(NodeId, NodeId)>,
        j: int,
    )
        requires
            Self::merged_so_far(done, mem, i, base, j),
            strictly_ascending(mem),
            super::base::ascending(base),
            0 <= i < mem.len(),
            0 <= j <= base.len(),
            j < base.len() ==> mem[i] < base[j].0,
        ensures
            Self::merged_so_far(done.push(mem[i]), mem, i + 1, base, j),
    {
        let next = done.push(mem[i]);
        assert forall|x: NodeId| #[trigger]
            next.contains(x) <==> mem.take(i + 1).contains(x) || has_key(base.take(j), x) by {
            push_contains(done, mem[i], x);
            assert(mem.take(i + 1) =~= mem.take(i).push(mem[i]));
            push_contains(mem.take(i), mem[i], x);
        }
    }

    proof fn merged_base_key(
        done: Seq<NodeId>,
        mem: Seq<NodeId>,
        i: int,
        base: Seq<(NodeId, NodeId)>,
        j: int,
    )
        requires
            Self::merged_so_far(done, mem, i, base, j),
            strictly_ascending(mem),
            super::base::ascending(base),
            0 <= i <= mem.len(),
            0 <= j < base.len(),
            i < mem.len() ==> base[j].0 <= mem[i],
        ensures
            ({
                let skip = i < mem.len() && mem[i] == base[j].0;
                Self::merged_so_far(
                    done.push(base[j].0),
                    mem,
                    if skip {
                        i + 1
                    } else {
                        i
                    },
                    base,
                    j + 1,
                )
            }),
    {
        let k = base[j].0;
        let next = done.push(k);
        let i2 = if i < mem.len() && mem[i] == k {
            i + 1
        } else {
            i
        };
        assert forall|x: NodeId| #[trigger]
            next.contains(x) <==> mem.take(i2).contains(x) || has_key(base.take(j + 1), x) by {
            push_contains(done, k, x);
            if i2 != i {
                assert(mem.take(i + 1) =~= mem.take(i).push(mem[i]));
                push_contains(mem.take(i), mem[i], x);
            }
            has_key_push(base, j, x);
        }
    }

    /// Stream the keys of one level in ascending order: the base's ascending
    /// stream merge-joined with the memtable's (small, sorted) key set, so
    /// nothing per-node is ever collected. Memtable keys are composed roots
    /// and therefore disjoint from base keys; the equal-key case is handled
    /// rather than relied upon.
    fn stream_level<S: SnapshotSink>(
        &mut self,
        sink: &mut S,
        level: Option<ScopeId>,
        whole: bool,
    )
        requires
            old(self).wf(),
            old(sink).wf(),
        ensures
            final(self).wf(),
            final(self).agrees(old(self)),
            old(self).indexed() ==> final(self).indexed(),
            final(sink).wf(),
            final(sink).setup() == old(sink).setup(),
            old(self).consistent() ==> final(sink).received() == old(sink).received() + old(
                self,
            ).level_events(level, in_order(old(self).keys_at(level, whole))),
    {
        let ghost start = *self;
        let ghost before = sink.received();
        let ghost setup = sink.setup();
        let mem: Vec<NodeId> = self.mem_keys(level);
        let ghost stream = if whole {
            start.base_stream_at(level)
        } else {
            Seq::empty()
        };
        let ghost mut done: Seq<NodeId> = Seq::empty();
        let ghost mut j: int = 0;
        let mut i: usize = 0;
        proof {
            assert(mem@.take(0) =~= Seq::empty());
            if start.consistent() {
                start.streams_list_links(level);
                assert(Self::merged_so_far(done, mem@, 0, stream, 0));
            }
            assert(sink.received() =~= before + start.level_events(level, done));
        }
        if whole {
            let mut cursor: PairCursor = self.base_start(level);
            proof {
                assert(self.base_rest_at(level, cursor) =~= stream.skip(0));
            }
            loop
                invariant_except_break
                    self.base_rest_at(level, cursor) == stream.skip(j),
                invariant
                    self.wf(),
                    start.wf(),
                    self.agrees(&start),
                    start.indexed() ==> self.indexed(),
                    sink.wf(),
                    sink.setup() == setup,
                    i <= mem.len(),
                    0 <= j <= stream.len(),
                    stream == start.base_stream_at(level),
                    sink.received() == before + start.level_events(level, done),
                    strictly_ascending(mem@),
                    start.consistent() ==> super::base::ascending(stream) && Self::merged_so_far(
                        done,
                        mem@,
                        i as int,
                        stream,
                        j,
                    ),
                ensures
                    j == stream.len(),
                decreases stream.len() - j,
            {
                let k: NodeId = match self.base_next(level, &mut cursor) {
                    Some((k, _)) => k,
                    None => {
                        break;
                    },
                };
                proof {
                    assert(k == stream[j].0);
                    assert(stream.skip(j).drop_first() =~= stream.skip(j + 1));
                }
                let ghost rest = self.base_rest_at(level, cursor);
                while i < mem.len() && mem[i] < k
                    invariant
                        self.wf(),
                        start.wf(),
                        self.agrees(&start),
                        start.indexed() ==> self.indexed(),
                        sink.wf(),
                        sink.setup() == setup,
                        i <= mem.len(),
                        0 <= j < stream.len(),
                        k == stream[j].0,
                        self.base_rest_at(level, cursor) == rest,
                        sink.received() == before + start.level_events(level, done),
                        strictly_ascending(mem@),
                        start.consistent() ==> super::base::ascending(stream)
                            && Self::merged_so_far(done, mem@, i as int, stream, j),
                    decreases mem.len() - i,
                {
                    let ghost prior = *self;
                    self.emit(sink, level, mem[i]);
                    proof {
                        if start.consistent() {
                            Self::merged_mem_key(done, mem@, i as int, stream, j);
                        }
                        start.emitted_one(&prior, self, level, done, mem@[i as int], before);
                        done = done.push(mem@[i as int]);
                    }
                    i += 1;
                }
                proof {
                    if start.consistent() {
                        Self::merged_base_key(done, mem@, i as int, stream, j);
                    }
                }
                if i < mem.len() && mem[i] == k {
                    i += 1;
                }
                let ghost prior = *self;
                self.emit(sink, level, k);
                proof {
                    start.emitted_one(&prior, self, level, done, k, before);
                    done = done.push(k);
                    j = j + 1;
                }
            }
        }
        while i < mem.len()
            invariant
                self.wf(),
                start.wf(),
                self.agrees(&start),
                start.indexed() ==> self.indexed(),
                sink.wf(),
                sink.setup() == setup,
                i <= mem.len(),
                j == stream.len(),
                sink.received() == before + start.level_events(level, done),
                strictly_ascending(mem@),
                start.consistent() ==> super::base::ascending(stream) && Self::merged_so_far(
                    done,
                    mem@,
                    i as int,
                    stream,
                    j,
                ),
            decreases mem.len() - i,
        {
            let ghost prior = *self;
            self.emit(sink, level, mem[i]);
            proof {
                if start.consistent() {
                    Self::merged_mem_key(done, mem@, i as int, stream, j);
                }
                start.emitted_one(&prior, self, level, done, mem@[i as int], before);
                done = done.push(mem@[i as int]);
            }
            i += 1;
        }
        proof {
            if start.consistent() {
                start.streams_list_links(level);
                assert(mem@.take(i as int) =~= mem@);
                assert(stream.take(j) =~= stream);
                assert forall|x: NodeId| done.to_set().contains(x) == start.keys_at(
                    level,
                    whole,
                ).contains(x) by {
                    assert(done.contains(x) <==> mem@.take(i as int).contains(x) || has_key(
                        stream.take(j),
                        x,
                    ));
                    assert(mem@.to_set().contains(x) == mem@.contains(x));
                    if has_key(stream, x) {
                        let a = choose|a: int| 0 <= a < stream.len() && (#[trigger] stream[a]).0 == x;
                        assert(start.base_at(level).contains_key(x));
                    }
                    if whole && start.base_at(level).contains_key(x) {
                        let a = choose|a: int| 0 <= a < stream.len() && (#[trigger] stream[a]).0 == x;
                        assert(has_key(stream, x));
                    }
                }
                assert(done.to_set() =~= start.keys_at(level, whole));
                in_order_is(done);
            }
        }
    }

    /// The scopes to stream, ascending.
    fn stream_scopes(&self, whole: bool) -> (scopes: Vec<ScopeId>)
        requires
            self.wf(),
        ensures
            scopes@ == scopes_in_order(self.scopes_at(whole)),
    {
        let mut scopes: Vec<ScopeId> = self.mem.scopes();
        proof {
            assert(scopes@.no_duplicates());
        }
        if whole {
            if let Some(base) = &self.base {
                let more: Vec<ScopeId> = base.scopes();
                extend_distinct(&mut scopes, &more);
            }
            sort_scopes(&mut scopes);
        }
        proof {
            assert(scopes@.to_set() =~= self.scopes_at(whole));
            scopes_in_order_is(scopes@);
        }
        scopes
    }

    /// Stream the composed (base and memtable) state, or the memtable's own
    /// pairs alone, in the order [`SnapshotSink`] promises.
    fn stream_into<S: SnapshotSink>(&mut self, sink: &mut S, whole: bool)
        requires
            old(self).wf(),
            old(sink).wf(),
        ensures
            final(self).wf(),
            final(self).agrees(old(self)),
            old(self).indexed() ==> final(self).indexed(),
            final(sink).wf(),
            final(sink).setup() == old(sink).setup(),
            old(self).consistent() ==> final(sink).received() == old(sink).received() + old(
                self,
            ).stream(whole),
    {
        let ghost start = *self;
        let ghost before = sink.received();
        let ghost setup = sink.setup();
        self.stream_level(sink, None, whole);
        let ghost shared = start.level_events(None, in_order(start.keys_at(None, whole)));
        proof {
            self.agreeing_forests_stream_alike(&start);
        }
        let scopes: Vec<ScopeId> = self.stream_scopes(whole);
        proof {
            assert(scopes@.take(0) =~= Seq::empty());
            assert(before + shared + start.scope_events(scopes@.take(0), whole) =~= before + shared);
        }
        let mut i: usize = 0;
        while i < scopes.len()
            invariant
                self.wf(),
                self.agrees(&start),
                start.wf(),
                start.indexed() ==> self.indexed(),
                sink.wf(),
                sink.setup() == setup,
                i <= scopes.len(),
                start.consistent() ==> sink.received() == before + shared + start.scope_events(
                    scopes@.take(i as int),
                    whole,
                ),
            decreases scopes.len() - i,
        {
            let scope: ScopeId = scopes[i];
            let ghost prior = *self;
            let ghost had = sink.received();
            sink.scope_start(scope);
            self.stream_level(sink, Some(scope), whole);
            sink.scope_end(scope);
            proof {
                Self::agreement_chains(&start, &prior, self);
                let keys = in_order(start.keys_at(Some(scope), whole));
                if start.consistent() {
                    prior.agreeing_forests_answer_alike(&start);
                    prior.agreeing_forests_stream_alike(&start);
                    prior.level_events_alike(&start, Some(scope), keys);
                    assert(prior.keys_at(Some(scope), whole) == start.keys_at(Some(scope), whole));
                    let now = scopes@.take(i + 1);
                    assert(now.drop_last() =~= scopes@.take(i as int));
                    assert(now.last() == scope);
                    assert(sink.received() =~= before + shared + start.scope_events(now, whole));
                }
            }
            i += 1;
        }
        proof {
            assert(scopes@.take(i as int) =~= scopes@);
            assert(before + shared + start.scope_events(scopes@, whole) =~= before + (shared
                + start.scope_events(scopes@, whole)));
        }
    }

    proof fn level_events_alike(
        &self,
        o: &ScopedForest,
        level: Option<ScopeId>,
        keys: Seq<NodeId>,
    )
        requires
            self.resolves_like(o),
        ensures
            self.level_events(level, keys) == o.level_events(level, keys),
        decreases keys.len(),
    {
        self.agreeing_forests_stream_alike(o);
        if keys.len() > 0 {
            self.level_events_alike(o, level, keys.drop_last());
            assert(self.key_events(level, keys.last()) == o.key_events(level, keys.last()));
        }
    }

    /// Stream the composed (base and memtable) state to `sink` in key order.
    ///
    /// This is **compaction**: base pairs are re-resolved through the memtable
    /// so the emitted state is complete and the next base subsumes both
    /// layers. Heap cost is O(memtable), not O(state).
    pub fn compact_into<S: SnapshotSink>(&mut self, sink: &mut S)
        requires
            old(self).wf(),
            old(sink).wf(),
        ensures
            final(self).wf(),
            final(self).agrees(old(self)),
            old(self).indexed() ==> final(self).indexed(),
            final(sink).wf(),
            final(sink).setup() == old(sink).setup(),
            old(self).consistent() ==> final(sink).received() == old(sink).received() + old(
                self,
            ).stream(true),
    {
        self.stream_into(sink, true);
    }

    /// The pairs streamed for `keys`.
    pub open spec fn key_pairs(&self, level: Option<ScopeId>, keys: Seq<NodeId>) -> Seq<
        (NodeId, NodeId),
    >
        decreases keys.len(),
    {
        if keys.len() == 0 {
            Seq::empty()
        } else {
            let before = self.key_pairs(level, keys.drop_last());
            let k = keys.last();
            if self.root_at(level, k) == k {
                before
            } else {
                before.push((k, self.root_at(level, k)))
            }
        }
    }

    /// `snap` is a capture of this forest: every resolved pair, in key order,
    /// and every scope that has one, in scope order.
    pub open spec fn captured_in(&self, snap: SnapshotView) -> bool {
        self.streamed_into(snap, true)
    }

    /// `snap` lists what is streamed of this forest: the whole of it, or its
    /// memtable's pairs alone.
    pub open spec fn streamed_into(&self, snap: SnapshotView, whole: bool) -> bool {
        &&& lists(snap.global, self.streamed_links(None, whole))
        &&& forall|i: int, j: int|
            0 <= i < j < snap.scopes.len() ==> (#[trigger] snap.scopes[i]).scope < (
            #[trigger] snap.scopes[j]).scope
        &&& forall|i: int| #![trigger snap.scopes[i]]
            0 <= i < snap.scopes.len() ==> snap.scopes[i].pairs.len() > 0 && lists(
                snap.scopes[i].pairs,
                self.streamed_links(Some(snap.scopes[i].scope), whole),
            )
        &&& forall|s: ScopeId, k: NodeId| #[trigger]
            self.streamed_links(Some(s), whole).contains_key(k) ==> lists_scope(snap.scopes, s)
    }

    /// The pairs streamed for a level list its resolved pairs.
    proof fn streamed_pairs_list_the_level(&self, level: Option<ScopeId>, keys: Seq<NodeId>)
        requires
            strictly_ascending(keys),
        ensures
            super::base::ascending(self.key_pairs(level, keys)),
            forall|i: int|
                0 <= i < self.key_pairs(level, keys).len() ==> {
                    let p = #[trigger] self.key_pairs(level, keys)[i];
                    keys.contains(p.0) && self.root_at(level, p.0) != p.0 && p.1 == self.root_at(
                        level,
                        p.0,
                    )
                },
            forall|k: NodeId|
                keys.contains(k) && self.root_at(level, k) != k ==> exists|i: int|
                    0 <= i < self.key_pairs(level, keys).len() && (#[trigger] self.key_pairs(
                        level,
                        keys,
                    )[i]).0 == k,
        decreases keys.len(),
    {
        if keys.len() > 0 {
            let front = keys.drop_last();
            let last = keys.last();
            self.streamed_pairs_list_the_level(level, front);
            let before = self.key_pairs(level, front);
            let all = self.key_pairs(level, keys);
            assert forall|i: int| 0 <= i < all.len() implies {
                let p = #[trigger] all[i];
                keys.contains(p.0) && self.root_at(level, p.0) != p.0 && p.1 == self.root_at(
                    level,
                    p.0,
                )
            } by {
                if i < before.len() {
                    assert(all[i] == before[i]);
                    assert(front.contains(before[i].0));
                    let j = front.index_of(before[i].0);
                    assert(keys[j] == before[i].0);
                } else {
                    assert(keys[keys.len() - 1] == last);
                }
            }
            assert forall|i: int, j: int| 0 <= i < j < all.len() implies (#[trigger] all[i]).0 < (
            #[trigger] all[j]).0 by {
                assert(all[i] == before[i]);
                if j < before.len() {
                    assert(all[j] == before[j]);
                } else {
                    assert(front.contains(before[i].0));
                    let a = front.index_of(before[i].0);
                    assert(keys[a] < keys[keys.len() - 1]);
                }
            }
            assert forall|k: NodeId|
                keys.contains(k) && self.root_at(level, k) != k implies exists|i: int|
                0 <= i < all.len() && (#[trigger] all[i]).0 == k by {
                let a = keys.index_of(k);
                if a < front.len() {
                    assert(front[a] == k);
                    assert(front.contains(k));
                    let i = choose|i: int| 0 <= i < before.len() && (#[trigger] before[i]).0 == k;
                    assert(all[i].0 == k);
                } else {
                    assert(all[before.len() as int].0 == k);
                }
            }
        }
    }

    /// The keys of a level can be put in order.
    proof fn level_keys_have_an_order(&self, level: Option<ScopeId>)
        requires
            self.wf(),
            self.consistent(),
        ensures
            strictly_ascending(in_order(self.keys_at(level, true))),
            in_order(self.keys_at(level, true)).to_set() == self.keys_at(level, true),
            strictly_ascending(in_order(self.keys_at(level, false))),
            in_order(self.keys_at(level, false)).to_set() == self.keys_at(level, false),
    {
        self.mem.links_descend();
        assert(self.mem_at(level).dom().finite()) by {
            if let Some(s) = level {
                assert(self.mem.overlay_links(s).dom().finite());
            }
        }
        self.streams_list_links(level);
        let stream = self.base_stream_at(level);
        let keys = stream.map_values(|p: (NodeId, NodeId)| p.0);
        assert(self.base_at(level).dom() =~= keys.to_set()) by {
            assert forall|k: NodeId| self.base_at(level).dom().contains(k) == keys.to_set().contains(
                k,
            ) by {
                if self.base_at(level).contains_key(k) {
                    let i = choose|i: int| 0 <= i < stream.len() && (#[trigger] stream[i]).0 == k;
                    assert(keys[i] == k);
                }
                if keys.contains(k) {
                    let i = keys.index_of(k);
                    assert(stream[i].0 == k);
                }
            }
        }
        finite_sets_have_an_order(self.keys_at(level, true));
        finite_sets_have_an_order(self.keys_at(level, false));
    }

    proof fn level_pairs_list_encoded(&self, level: Option<ScopeId>, whole: bool)
        requires
            self.wf(),
            self.consistent(),
        ensures
            lists(self.key_pairs(level, in_order(self.keys_at(level, whole))), self.streamed_links(level, whole)),
    {
        let keys = in_order(self.keys_at(level, whole));
        self.level_keys_have_an_order(level);
        self.streamed_pairs_list_the_level(level, keys);
        let pairs = self.key_pairs(level, keys);
        assert forall|i: int| 0 <= i < pairs.len() implies self.streamed_links(level, whole).contains_key(
            (#[trigger] pairs[i]).0,
        ) && self.streamed_links(level, whole)[pairs[i].0] == pairs[i].1 by {
            assert(keys.to_set().contains(pairs[i].0));
        }
        assert forall|k: NodeId| #[trigger] self.streamed_links(level, whole).contains_key(k) implies exists|
            i: int,
        | 0 <= i < pairs.len() && (#[trigger] pairs[i]).0 == k by {
            assert(keys.to_set().contains(k));
            assert(keys.contains(k));
        }
    }

    /// Collecting the events of the shared tier adds its pairs.
    proof fn collecting_shared(&self, before: Seq<SinkEvent>, keys: Seq<NodeId>)
        ensures
            collected(before + self.level_events(None, keys)) == (Collected {
                global: collected(before).global + self.key_pairs(None, keys),
                ..collected(before)
            }),
        decreases keys.len(),
    {
        let all = before + self.level_events(None, keys);
        if keys.len() == 0 {
            assert(all =~= before);
            assert(collected(before).global + self.key_pairs(None, keys)
                =~= collected(before).global);
        } else {
            let front = keys.drop_last();
            self.collecting_shared(before, front);
            let prior = before + self.level_events(None, front);
            let k = keys.last();
            if self.shared(k) == k {
                assert(all =~= prior);
            } else {
                assert(all.drop_last() =~= prior);
                assert(collected(prior).global.push((k, self.shared(k))) =~= collected(
                    before,
                ).global + self.key_pairs(None, keys));
            }
        }
    }

    /// Collecting the events of an overlay adds its pairs to the open scope.
    proof fn collecting_overlay(
        &self,
        before: Seq<SinkEvent>,
        scope: ScopeId,
        keys: Seq<NodeId>,
    )
        requires
            collected(before).open is Some,
        ensures
            collected(before + self.level_events(Some(scope), keys)) == (Collected {
                open: Some(
                    ScopePairs {
                        scope: collected(before).open->Some_0.scope,
                        pairs: collected(before).open->Some_0.pairs + self.key_pairs(
                            Some(scope),
                            keys,
                        ),
                    },
                ),
                ..collected(before)
            }),
        decreases keys.len(),
    {
        let level = Some(scope);
        let all = before + self.level_events(level, keys);
        let was = collected(before).open->Some_0;
        if keys.len() == 0 {
            assert(all =~= before);
            assert(was.pairs + self.key_pairs(level, keys) =~= was.pairs);
        } else {
            let front = keys.drop_last();
            self.collecting_overlay(before, scope, front);
            let prior = before + self.level_events(level, front);
            let node = keys.last();
            let root = self.overlay(scope, node);
            if root == node {
                assert(all =~= prior);
            } else {
                let one = prior.push(SinkEvent::Overlay { node, root });
                let a = self.shared(node);
                let b = self.shared(root);
                let two = one.push(SinkEvent::Registry { root: a, scope });
                assert(one.drop_last() =~= prior);
                assert(two.drop_last() =~= one);
                assert((was.pairs + self.key_pairs(level, front)).push((node, root)) =~= was.pairs
                    + self.key_pairs(level, keys));
                assert(collected(two) == collected(one));
                if a == b {
                    assert(all =~= two);
                } else {
                    let three = two.push(SinkEvent::Registry { root: b, scope });
                    assert(three.drop_last() =~= two);
                    assert(all =~= three);
                }
            }
        }
    }

    /// Collecting the events of `scopes` adds each scope that has a pair.
    proof fn collecting_scopes(&self, before: Seq<SinkEvent>, scopes: Seq<ScopeId>, whole: bool)
        requires
            self.wf(),
            self.consistent(),
            scopes_ascending(scopes),
            collected(before).scopes.len() == 0,
        ensures
            collected(before + self.scope_events(scopes, whole)).global == collected(before).global,
            scopes_collected(
                self,
                whole,
                scopes,
                collected(before + self.scope_events(scopes, whole)).scopes,
            ),
        decreases scopes.len(),
    {
        let all = before + self.scope_events(scopes, whole);
        if scopes.len() == 0 {
            assert(all =~= before);
        } else {
            let front = scopes.drop_last();
            let scope = scopes.last();
            self.collecting_scopes(before, front, whole);
            let prior = before + self.scope_events(front, whole);
            let one = prior.push(SinkEvent::ScopeStart { scope });
            assert(one.drop_last() =~= prior);
            let keys = in_order(self.keys_at(Some(scope), whole));
            self.collecting_overlay(one, scope, keys);
            let two = one + self.level_events(Some(scope), keys);
            let three = two.push(SinkEvent::ScopeEnd { scope });
            assert(three.drop_last() =~= two);
            assert(all =~= three);
            self.level_pairs_list_encoded(Some(scope), whole);
            let pairs = self.key_pairs(Some(scope), keys);
            assert(Seq::<(NodeId, NodeId)>::empty() + pairs =~= pairs);
            let was = collected(prior).scopes;
            let now = collected(all).scopes;
            assert forall|i: int|
                0 <= i < now.len() implies #[trigger] scope_collected(self, whole, scopes, now, i) by {
                if i < was.len() {
                    assert(scope_collected(self, whole, front, was, i));
                    let a = front.index_of(was[i].scope);
                    assert(scopes[a] == was[i].scope);
                } else {
                    assert(scopes[scopes.len() - 1] == scope);
                }
            }
            assert forall|i: int, j: int| 0 <= i < j < now.len() implies (#[trigger] now[i]).scope
                < (#[trigger] now[j]).scope by {
                assert(scope_collected(self, whole, front, was, i));
                if j == was.len() {
                    let a = front.index_of(was[i].scope);
                    assert(scopes[a] < scopes[scopes.len() - 1]);
                }
            }
            assert forall|s: ScopeId, k: NodeId|
                scopes.contains(s) && #[trigger] self.streamed_links(Some(s), whole).contains_key(
                    k,
                ) implies lists_scope(now, s) by {
                let a = scopes.index_of(s);
                if a < front.len() {
                    assert(front[a] == s);
                    assert(front.contains(s));
                    let i = choose|i: int| 0 <= i < was.len() && (#[trigger] was[i]).scope == s;
                    assert(now[i].scope == s);
                } else {
                    let i = choose|i: int| 0 <= i < pairs.len() && (#[trigger] pairs[i]).0 == k;
                    assert(now[was.len() as int].scope == s);
                }
            }
        }
    }

    /// **A collected stream captures the forest.**
    pub proof fn collecting_the_stream_captures(&self)
        requires
            self.wf(),
            self.consistent(),
        ensures
            self.captured_in(
                (SnapshotView {
                    global: collected(self.stream(true)).global,
                    scopes: collected(self.stream(true)).scopes,
                }),
            ),
    {
        self.collecting_lists_the_stream(true);
    }

    /// **A collected stream lists what was streamed**, whole or delta.
    pub proof fn collecting_lists_the_stream(&self, whole: bool)
        requires
            self.wf(),
            self.consistent(),
        ensures
            self.streamed_into(
                (SnapshotView {
                    global: collected(self.stream(whole)).global,
                    scopes: collected(self.stream(whole)).scopes,
                }),
                whole,
            ),
    {
        let keys = in_order(self.keys_at(None, whole));
        let none = Seq::<SinkEvent>::empty();
        self.collecting_shared(none, keys);
        let shared = self.level_events(None, keys);
        assert(none + shared =~= shared);
        assert(collected(none).global + self.key_pairs(None, keys) =~= self.key_pairs(None, keys));
        self.level_pairs_list_encoded(None, whole);
        let scopes = scopes_in_order(self.scopes_at(whole));
        self.scopes_have_an_order();
        self.collecting_scopes(shared, scopes, whole);
        assert(self.stream(whole) == shared + self.scope_events(scopes, whole));
        let got = collected(self.stream(whole)).scopes;
        assert(lists(collected(self.stream(whole)).global, self.streamed_links(None, whole)));
        assert forall|i: int| #![trigger got[i]]
            0 <= i < got.len() implies got[i].pairs.len() > 0 && lists(
            got[i].pairs,
            self.streamed_links(Some(got[i].scope), whole),
        ) by {
            assert(scope_collected(self, whole, scopes, got, i));
        }
        assert forall|s: ScopeId, k: NodeId| #[trigger]
            self.streamed_links(Some(s), whole).contains_key(k) implies lists_scope(got, s) by {
            assert(self.scopes_at(whole).contains(s)) by {
                if self.mem_overlay(s).contains_key(k) {
                } else {
                    assert(self.base_overlay(s).contains_key(k));
                    if let Some(b) = self.base {
                        assert(b.overlay_links(s).contains_key(k));
                        assert(b.scope_list().contains(s));
                    }
                }
            }
            assert(scopes.to_set().contains(s));
            assert(scopes.contains(s));
        }
    }

    proof fn scopes_have_an_order(&self)
        requires
            self.wf(),
        ensures
            scopes_ascending(scopes_in_order(self.scopes_at(true))),
            scopes_in_order(self.scopes_at(true)).to_set() == self.scopes_at(true),
            scopes_ascending(scopes_in_order(self.scopes_at(false))),
            scopes_in_order(self.scopes_at(false)).to_set() == self.scopes_at(false),
    {
        self.mem.finitely_many_overlays();
        finite_scopes_have_an_order(self.scopes_at(true));
        finite_scopes_have_an_order(self.scopes_at(false));
    }

    /// The resolved pairs of one level: every key with the root it resolves to.
    pub open spec fn encoded(&self, level: Option<ScopeId>) -> Map<NodeId, NodeId> {
        self.streamed_links(level, true)
    }

    /// The resolved pairs streamed for one level.
    pub open spec fn streamed_links(&self, level: Option<ScopeId>, whole: bool) -> Map<
        NodeId,
        NodeId,
    > {
        Map::new(
            |k: NodeId| self.keys_at(level, whole).contains(k) && self.root_at(level, k) != k,
            |k: NodeId| self.root_at(level, k),
        )
    }

    /// The scopes with a streamed overlay pair that has an end in the shared
    /// component of `root`.
    pub open spec fn encoded_registry(&self, root: NodeId) -> Set<ScopeId> {
        Set::new(|s: ScopeId| exists|k: NodeId| #[trigger] self.pair_touches(s, k, root))
    }

    /// The overlay pair of `k` in `scope` has an end in the shared component of
    /// `root`.
    pub open spec fn pair_touches(&self, scope: ScopeId, k: NodeId, root: NodeId) -> bool {
        &&& self.encoded(Some(scope)).contains_key(k)
        &&& self.shared(k) == root || self.shared(self.overlay(scope, k)) == root
    }

    /// `b` holds the resolved pairs of this forest, base and memtable together.
    pub open spec fn captured_by<B: RoutingBase + ?Sized>(&self, b: &B) -> bool {
        &&& b.shared_links() == self.encoded(None)
        &&& forall|s: ScopeId| #[trigger] b.overlay_links(s) == self.encoded(Some(s))
    }

    /// **Resolved pairs answer what the forest answers**, and are fully
    /// resolved.
    pub proof fn encoded_pairs_resolve(&self, level: Option<ScopeId>)
        requires
            self.wf(),
            self.consistent(),
        ensures
            resolved(self.encoded(level)),
            forall|x: NodeId| #[trigger] step_up(self.encoded(level), x) == self.root_at(level, x),
            forall|x: NodeId| #[trigger]
                self.encoded(level).contains_key(x) <==> self.root_at(level, x) != x,
    {
        self.consistent_maps();
        let e = self.encoded(level);
        assert(descending(self.mem_at(level)) && resolved(self.base_at(level)) && above(
            self.mem_at(level),
            self.base_at(level),
        )) by {
            if let Some(s) = level {
                assert(descending(self.mem_overlay(s)));
                assert(resolved(self.base_overlay(s)));
                assert(above(self.mem_overlay(s), self.base_overlay(s)));
            }
        }
        assert forall|x: NodeId| #[trigger] e.contains_key(x) <==> self.root_at(level, x) != x by {
            composition_is_exact(self.mem_at(level), self.base_at(level), x);
        }
        assert forall|k: NodeId| #[trigger] e.contains_key(k) implies e[k] < k
            && !e.contains_key(e[k]) by {
            composition_is_exact(self.mem_at(level), self.base_at(level), k);
        }
    }

    /// The pairs of a base that captures a consistent forest are fully
    /// resolved, and overlay elements follow their shared components.
    pub proof fn captured_pairs_settle<B: RoutingBase + ?Sized>(&self, b: &B)
        requires
            self.wf(),
            self.consistent(),
            self.captured_by(b),
        ensures
            resolved(b.shared_links()),
            forall|s: ScopeId| #[trigger] resolved(b.overlay_links(s)),
            forall|s: ScopeId| settled(b.shared_links(), #[trigger] b.overlay_links(s)),
    {
        self.encoded_pairs_resolve(None);
        assert forall|s: ScopeId| #[trigger] resolved(b.overlay_links(s)) by {
            self.encoded_pairs_resolve(Some(s));
        }
        assert forall|s: ScopeId| settled(b.shared_links(), #[trigger] b.overlay_links(s)) by {
            self.encoded_pairs_resolve(Some(s));
            assert(self.elements_follow(s));
            let e = self.encoded(Some(s));
            assert(b.overlay_links(s) == e);
            assert forall|k: NodeId| #[trigger] e.contains_key(k) implies step_up(
                e,
                step_up(self.encoded(None), k),
            ) == e[k] && step_up(e, step_up(self.encoded(None), e[k])) == e[k] by {
                assert(self.root_at(Some(s), k) != k);
                assert(self.overlay(s, k) != k);
                assert(step_up(self.encoded(None), k) == self.root_at(None, k));
                assert(step_up(self.encoded(None), e[k]) == self.root_at(None, e[k]));
                assert(step_up(e, self.shared(k)) == self.root_at(Some(s), self.shared(k)));
                assert(step_up(e, self.shared(e[k])) == self.root_at(Some(s), self.shared(e[k])));
            }
        }
    }

    /// A scope that glues nothing to a shared root has no captured link there.
    pub proof fn lone_roots_are_untouched<B: RoutingBase + ?Sized>(
        &self,
        b: &B,
        s: ScopeId,
        c: NodeId,
    )
        requires
            self.wf(),
            self.consistent(),
            self.captured_by(b),
            self.lone(s, c),
        ensures
            untouched(b.shared_links(), b.overlay_links(s), c),
    {
        self.encoded_pairs_resolve(None);
        self.encoded_pairs_resolve(Some(s));
        let e = self.encoded(Some(s));
        assert(b.overlay_links(s) == e);
        assert forall|k: NodeId| #[trigger] e.contains_key(k) implies step_up(
            self.encoded(None),
            k,
        ) != c && step_up(self.encoded(None), e[k]) != c by {
            assert(self.root_at(Some(s), k) != k);
            assert(self.overlay(s, k) != k);
            assert(step_up(self.encoded(None), k) == self.root_at(None, k));
            assert(step_up(self.encoded(None), e[k]) == self.root_at(None, e[k]));
        }
    }

    /// **A compacted base is a routing snapshot**: the resolved pairs of a
    /// consistent forest, with the registry streamed beside them, say about
    /// every shared root which scopes glue something to it.
    pub proof fn a_compacted_base_is_valid<B: RoutingBase + ?Sized>(&self, b: &B)
        requires
            self.wf(),
            self.consistent(),
            self.captured_by(b),
            forall|r: NodeId| #[trigger] b.registered(r) == self.encoded_registry(r),
            lists(b.shared_stream(), b.shared_links()),
            forall|s: ScopeId| lists(#[trigger] b.overlay_stream(s), b.overlay_links(s)),
            scopes_ascending(b.scope_list()),
            forall|s: ScopeId, k: NodeId| #[trigger]
                b.overlay_links(s).contains_key(k) ==> b.scope_list().contains(s),
        ensures
            valid_base(b),
    {
        self.captured_pairs_settle(b);
        self.encoded_pairs_resolve(None);
        assert forall|s: ScopeId, c: NodeId|
            !b.shared_links().contains_key(c) && !(#[trigger] b.registered(c).contains(
                s,
            )) implies untouched(b.shared_links(), b.overlay_links(s), c) by {
            self.encoded_pairs_resolve(Some(s));
            let e = self.encoded(Some(s));
            assert(b.overlay_links(s) == e);
            assert forall|k: NodeId| #[trigger] e.contains_key(k) implies step_up(
                self.encoded(None),
                k,
            ) != c && step_up(self.encoded(None), e[k]) != c by {
                assert(step_up(self.encoded(None), k) == self.root_at(None, k));
                assert(step_up(self.encoded(None), e[k]) == self.root_at(None, e[k]));
                if self.shared(k) == c || self.shared(e[k]) == c {
                    assert(self.pair_touches(s, k, c));
                    assert(self.encoded_registry(c).contains(s));
                }
            }
        }
    }

    /// **Folding changes no answer**: a forest over a base that captures this
    /// one, with nothing applied since, answers every query alike.
    pub proof fn folding_changes_no_answer(&self, folded: &ScopedForest)
        requires
            self.wf(),
            self.consistent(),
            folded.wf(),
            folded.mem_is_fresh(),
            folded.base_shared() == self.encoded(None),
            forall|s: ScopeId| #[trigger] folded.base_overlay(s) == self.encoded(Some(s)),
        ensures
            forall|s: ScopeId, x: NodeId| #[trigger] folded.root_in(s, x) == self.root_in(s, x),
    {
        self.encoded_pairs_resolve(None);
        assert forall|x: NodeId| #[trigger] folded.shared(x) == self.shared(x) by {
            assert(step_up(self.encoded(None), x) == self.root_at(None, x));
        }
        assert forall|s: ScopeId, x: NodeId| #[trigger] folded.root_in(s, x) == self.root_in(
            s,
            x,
        ) by {
            self.encoded_pairs_resolve(Some(s));
            assert(folded.base_overlay(s) == self.encoded(Some(s)));
            let r = self.shared(x);
            assert(step_up(self.encoded(Some(s)), r) == self.root_at(Some(s), r));
            assert(folded.overlay(s, r) == self.overlay(s, r));
        }
    }

    /// The memtable holds nothing.
    pub closed spec fn mem_is_fresh(&self) -> bool {
        self.mem.is_fresh(self.member_index)
    }

    /// Times the memtable was folded.
    pub closed spec fn fold_count(&self) -> u64 {
        self.folds
    }

    /// Replaces the base by `base` and drops the memtable, in one step.
    fn adopt(&mut self, attached: Option<Arc<dyn RoutingBase>>)
        requires
            old(self).wf(),
            attached is Some,
            attached->Some_0.wf(),
        ensures
            final(self).wf(),
            final(self).indexed(),
            final(self).mem_is_fresh(),
            final(self).serves(&*attached->Some_0),
            final(self).lists_members_as(&*attached->Some_0),
            final(self).fold_count() == counted(old(self).fold_count(), 1),
            final(self).event_count() == old(self).event_count(),
            final(self).tracking() == old(self).tracking(),
            final(self).scope_link_count() == old(self).scope_link_count(),
            final(self).fixup_count() == old(self).fixup_count(),
            valid_base(&*attached->Some_0) ==> final(self).consistent(),
            old(self).consistent() && old(self).captured_by(&*attached->Some_0) ==> forall|
                s: ScopeId,
                x: NodeId,
            | #[trigger]
                final(self).root_in(s, x) == old(self).root_in(s, x),
    {
        let ghost before = *self;
        let ghost base = attached->Some_0;
        self.base = attached;
        self.mem = Memtable::new(self.member_index);
        self.folds = self.folds.wrapping_add(1);
        proof {
            if valid_base(&*base) {
                self.bare_base_is_consistent();
            }
            if before.consistent() && before.captured_by(&*base) {
                assert forall|s: ScopeId| #[trigger] self.base_overlay(s) == before.encoded(
                    Some(s),
                ) by {
                    assert(base.overlay_links(s) == before.encoded(Some(s)));
                }
                before.folding_changes_no_answer(self);
            }
        }
    }

    /// Compact, then **adopt the result and drop the memtable** in the same
    /// step.
    ///
    /// This is what keeps heap use bounded in a running process. Without it
    /// the memtable only starts empty and grows for the life of the worker.
    ///
    /// `build` turns the stream it is handed into the base that encodes it
    /// (write the Puffin file, map it) and may return anything else the caller
    /// needs from the same bytes. The forest stays borrowed throughout, so
    /// nothing can be applied between the compaction and the fold and then be
    /// lost by it. A failing `build` leaves the forest as it was.
    pub fn compact_and_fold<S: SnapshotSink, T, E, F: FnOnce(S) -> Result<
        (Arc<dyn RoutingBase>, T),
        E,
    >>(&mut self, sink: S, build: F) -> (r: Result<T, E>)
        requires
            old(self).wf(),
            sink.wf(),
            forall|s: S|
                s.wf() && s.setup() == sink.setup() && (old(self).consistent() ==> s.received() == sink.received() + old(
                    self,
                ).stream(true)) ==> #[trigger] build.requires((s,)),
            forall|s: S, p: (Arc<dyn RoutingBase>, T)| #[trigger]
                build.ensures((s,), Ok(p)) ==> p.0.wf(),
        ensures
            final(self).wf(),
            r is Err ==> final(self).agrees(old(self)),
            r matches Err(e) ==> exists|s: S| #[trigger]
                fails_with(build, s, e) && s.setup() == sink.setup() && (
                old(self).consistent() ==> s.received() == sink.received() + old(self).stream(
                    true,
                )),
            r matches Ok(t) ==> exists|s: S, p: (Arc<dyn RoutingBase>, T)| #[trigger]
                build.ensures((s,), Ok(p)) && p.1 == t && s.setup() == sink.setup()
                    && final(self).folded(old(self), &*p.0) && (
                old(self).consistent() ==> s.received() == sink.received() + old(self).stream(
                    true,
                )),
    {
        self.stream_and_fold(sink, true, build)
    }

    /// Fold the memtable out as a **delta layer** rather than rewriting the
    /// base, then adopt the result and drop the memtable.
    ///
    /// This streams only what the memtable itself contributes, so it costs
    /// O(memtable): the base is appended to, never rewritten. **The memtable is
    /// the dirty set**: because every fold empties it, its keys are exactly the
    /// nodes re-rooted since the last one.
    ///
    /// `build` receives the streamed delta and must return a base that composes
    /// it over the current one; see `storage::layered::LayeredBase::pushed`.
    pub fn fold_delta<S: SnapshotSink, T, E, F: FnOnce(S) -> Result<
        (Arc<dyn RoutingBase>, T),
        E,
    >>(&mut self, sink: S, build: F) -> (r: Result<T, E>)
        requires
            old(self).wf(),
            sink.wf(),
            forall|s: S|
                s.wf() && s.setup() == sink.setup() && (old(self).consistent() ==> s.received() == sink.received() + old(
                    self,
                ).stream(false)) ==> #[trigger] build.requires((s,)),
            forall|s: S, p: (Arc<dyn RoutingBase>, T)| #[trigger]
                build.ensures((s,), Ok(p)) ==> p.0.wf(),
        ensures
            final(self).wf(),
            r is Err ==> final(self).agrees(old(self)),
            r matches Err(e) ==> exists|s: S| #[trigger]
                fails_with(build, s, e) && s.setup() == sink.setup() && (
                old(self).consistent() ==> s.received() == sink.received() + old(self).stream(
                    false,
                )),
            r matches Ok(t) ==> exists|s: S, p: (Arc<dyn RoutingBase>, T)| #[trigger]
                build.ensures((s,), Ok(p)) && p.1 == t && s.setup() == sink.setup()
                    && final(self).folded(old(self), &*p.0) && (
                old(self).consistent() ==> s.received() == sink.received() + old(self).stream(
                    false,
                )),
    {
        self.stream_and_fold(sink, false, build)
    }

    /// This is `before` folded into `b`: nothing left in the memtable, one more
    /// fold counted, and no answer changed where `b` captures `before`.
    pub open spec fn folded<B: RoutingBase + ?Sized>(&self, before: &ScopedForest, b: &B) -> bool {
        &&& self.mem_is_fresh()
        &&& self.indexed()
        &&& self.serves(b)
        &&& self.lists_members_as(b)
        &&& self.fold_count() == counted(before.fold_count(), 1)
        &&& self.event_count() == before.event_count()
        &&& self.tracking() == before.tracking()
        &&& self.scope_link_count() == before.scope_link_count()
        &&& self.fixup_count() == before.fixup_count()
        &&& valid_base(b) ==> self.consistent()
        &&& before.consistent() && before.captured_by(b) ==> forall|s: ScopeId, x: NodeId|
            #[trigger]
            self.root_in(s, x) == before.root_in(s, x)
    }

    fn stream_and_fold<S: SnapshotSink, T, E, F: FnOnce(S) -> Result<
        (Arc<dyn RoutingBase>, T),
        E,
    >>(&mut self, sink: S, whole: bool, build: F) -> (r: Result<T, E>)
        requires
            old(self).wf(),
            sink.wf(),
            forall|s: S|
                s.wf() && s.setup() == sink.setup() && (old(self).consistent() ==> s.received() == sink.received() + old(
                    self,
                ).stream(whole)) ==> #[trigger] build.requires((s,)),
            forall|s: S, p: (Arc<dyn RoutingBase>, T)| #[trigger]
                build.ensures((s,), Ok(p)) ==> p.0.wf(),
        ensures
            final(self).wf(),
            r is Err ==> final(self).agrees(old(self)),
            r matches Err(e) ==> exists|s: S| #[trigger]
                fails_with(build, s, e) && s.setup() == sink.setup() && (
                old(self).consistent() ==> s.received() == sink.received() + old(self).stream(
                    whole,
                )),
            r matches Ok(t) ==> exists|s: S, p: (Arc<dyn RoutingBase>, T)| #[trigger]
                build.ensures((s,), Ok(p)) && p.1 == t && s.setup() == sink.setup()
                    && final(self).folded(old(self), &*p.0) && (
                old(self).consistent() ==> s.received() == sink.received() + old(self).stream(
                    whole,
                )),
    {
        let ghost before = *self;
        let ghost given = sink;
        let mut sink = sink;
        self.stream_into(&mut sink, whole);
        let ghost streamed = *self;
        let ghost filled = sink;
        proof {
            streamed.agreeing_forests_answer_alike(&before);
            streamed.agreeing_forests_stream_alike(&before);
        }
        match build(sink) {
            Ok(built) => {
                let ghost pair = built;
                let (base, out) = built;
                let attached = Some(base);
                self.adopt(attached);
                proof {
                    if before.consistent() && before.captured_by(&*base) {
                        assert(streamed.captured_by(&*base)) by {
                            streamed.encoded_alike(&before, None);
                            assert forall|s: ScopeId| #[trigger] base.overlay_links(s)
                                == streamed.encoded(Some(s)) by {
                                streamed.encoded_alike(&before, Some(s));
                            }
                        }
                        assert forall|s: ScopeId, x: NodeId| #[trigger] self.root_in(s, x)
                            == before.root_in(s, x) by {
                            assert(streamed.root_in(s, x) == before.root_in(s, x));
                        }
                    }
                    assert(build.ensures((filled,), Ok(pair)));
                    assert(self.folded(&before, &*pair.0));
                }
                Ok(out)
            },
            Err(e) => {
                assert(fails_with(build, filled, e));
                let failed: Result<T, E> = Err(e);
                assert(failed->Err_0 == e);
                assert(filled.setup() == given.setup());
                failed
            },
        }
    }

    proof fn encoded_alike(&self, o: &ScopedForest, level: Option<ScopeId>)
        requires
            self.resolves_like(o),
        ensures
            self.encoded(level) == o.encoded(level),
    {
        self.agreeing_forests_answer_alike(o);
        self.agreeing_forests_stream_alike(o);
        assert(self.keys_at(level, true) == o.keys_at(level, true));
        assert(self.encoded(level) =~= o.encoded(level)) by {
            assert forall|k: NodeId| self.root_at(level, k) == o.root_at(level, k) by {
                if let Some(s) = level {
                    assert(self.overlay(s, k) == o.overlay(s, k));
                }
            }
        }
    }

    /// Install a base that resolves **identically** to the current one, keeping
    /// the memtable intact.
    ///
    /// This is how storage-side compaction lands. Compaction reads committed,
    /// immutable layer files while ingest keeps running; by the time the
    /// compacted base is ready the memtable has grown, and discarding it would
    /// lose everything applied meanwhile. Passing an inequivalent base is a
    /// correctness bug, not a performance one.
    pub fn swap_base(&mut self, base: Arc<dyn RoutingBase>)
        requires
            old(self).wf(),
            base.wf(),
        ensures
            final(self).wf(),
            old(self).indexed() ==> final(self).indexed(),
            final(self).serves(&*base),
            final(self).lists_members_as(&*base),
            final(self).mem_shared() == old(self).mem_shared(),
            forall|s: ScopeId| #[trigger] final(self).mem_overlay(s) == old(self).mem_overlay(s),
            forall|r: NodeId| #[trigger]
                final(self).mem_registered(r) == old(self).mem_registered(r),
            final(self).event_count() == old(self).event_count(),
            final(self).fold_count() == old(self).fold_count(),
            final(self).tracking() == old(self).tracking(),
            final(self).scope_link_count() == old(self).scope_link_count(),
            final(self).fixup_count() == old(self).fixup_count(),
            final(self).merge_count() == old(self).merge_count(),
            old(self).consistent() && old(self).base_resolves_like(&*base) && valid_base(&*base)
                ==> final(self).consistent() && forall|s: ScopeId, x: NodeId| #[trigger]
                final(self).root_in(s, x) == old(self).root_in(s, x),
    {
        let attached = Some(base);
        self.install(attached);
    }

    /// Replaces the base, keeping the memtable.
    pub(crate) fn install(&mut self, attached: Option<Arc<dyn RoutingBase>>)
        requires
            old(self).wf(),
            attached is Some,
            attached->Some_0.wf(),
        ensures
            final(self).wf(),
            old(self).indexed() ==> final(self).indexed(),
            final(self).serves(&*attached->Some_0),
            final(self).lists_members_as(&*attached->Some_0),
            final(self).mem_shared() == old(self).mem_shared(),
            forall|s: ScopeId| #[trigger] final(self).mem_overlay(s) == old(self).mem_overlay(s),
            forall|r: NodeId| #[trigger]
                final(self).mem_registered(r) == old(self).mem_registered(r),
            final(self).event_count() == old(self).event_count(),
            final(self).fold_count() == old(self).fold_count(),
            final(self).tracking() == old(self).tracking(),
            final(self).scope_link_count() == old(self).scope_link_count(),
            final(self).fixup_count() == old(self).fixup_count(),
            final(self).merge_count() == old(self).merge_count(),
            old(self).consistent() && old(self).base_resolves_like(&*attached->Some_0) && valid_base(&*attached->Some_0)
                ==> final(self).consistent() && forall|s: ScopeId, x: NodeId| #[trigger]
                final(self).root_in(s, x) == old(self).root_in(s, x),
    {
        let ghost before = *self;
        self.base = attached;
        proof {
            if before.consistent() && before.base_resolves_like(&*attached->Some_0) && valid_base(
                &*attached->Some_0,
            ) {
                assert forall|s: ScopeId| #[trigger] self.base_overlay(s) == before.base_overlay(
                    s,
                ) by {}
                assert forall|s: ScopeId, x: NodeId| #[trigger] self.overlay(s, x)
                    == before.overlay(s, x) by {
                    assert(self.base_overlay(s) == before.base_overlay(s));
                }
                assert forall|x: NodeId| #[trigger] self.shared(x) == before.shared(x) by {}
                assert forall|s: ScopeId| above(
                    #[trigger] self.mem_overlay(s),
                    self.base_overlay(s),
                ) by {
                    assert(above(before.mem_overlay(s), before.base_overlay(s)));
                }
                assert forall|s: ScopeId, c: NodeId| #[trigger] self.unnoticed(
                    s,
                    c,
                ) implies self.lone(s, c) by {
                    assert(before.unnoticed(s, c));
                    assert(before.lone(s, c));
                    assert forall|k: NodeId| (#[trigger] self.overlay(s, k)) != k implies
                        self.shared(k) != c && self.shared(self.overlay(s, k)) != c by {
                        assert(before.overlay(s, k) != k);
                    }
                }
                assert forall|s: ScopeId| #[trigger] self.elements_follow(s) by {
                    assert(before.elements_follow(s));
                    assert forall|k: NodeId| (#[trigger] self.overlay(s, k)) != k implies
                        self.overlay(s, self.shared(k)) == self.overlay(s, k) && self.overlay(
                        s,
                        self.shared(self.overlay(s, k)),
                    ) == self.overlay(s, k) by {
                        assert(before.overlay(s, k) != k);
                    }
                }
            }
        }
    }

    /// `b` records what the current base records.
    pub open spec fn base_resolves_like<B: RoutingBase + ?Sized>(&self, b: &B) -> bool {
        &&& b.shared_links() == self.base_shared()
        &&& forall|s: ScopeId| #[trigger] b.overlay_links(s) == self.base_overlay(s)
    }

    /// In a consistent forest the base streams exactly its links.
    proof fn streams_list_links(&self, level: Option<ScopeId>)
        requires
            self.consistent(),
        ensures
            lists(self.base_stream_at(level), self.base_at(level)),
    {
        if let Some(b) = self.base {
            if let Some(s) = level {
                assert(lists(b.overlay_stream(s), b.overlay_links(s)));
            }
        }
    }

    proof fn emitted_one(
        &self,
        prior: &ScopedForest,
        now: &ScopedForest,
        level: Option<ScopeId>,
        done: Seq<NodeId>,
        k: NodeId,
        before: Seq<SinkEvent>,
    )
        requires
            prior.agrees(self),
            now.agrees(prior),
        ensures
            now.agrees(self),
            (before + self.level_events(level, done)) + prior.key_events(level, k) == before
                + self.level_events(level, done.push(k)),
    {
        Self::agreement_chains(self, prior, now);
        prior.agreeing_forests_stream_alike(self);
        assert(done.push(k).drop_last() =~= done);
        assert((before + self.level_events(level, done)) + prior.key_events(level, k) =~= before
            + self.level_events(level, done.push(k)));
    }
}

// --- hydration --------------------------------------------------------------

/// `scope`'s overlay links after the pairs of `scopes` were recorded in order.
pub open spec fn hydrated_overlay(
    links: Map<NodeId, NodeId>,
    scopes: Seq<ScopePairs>,
    scope: ScopeId,
) -> Map<NodeId, NodeId>
    decreases scopes.len(),
{
    if scopes.len() == 0 {
        links
    } else {
        let before = hydrated_overlay(links, scopes.drop_last(), scope);
        if scopes.last().scope == scope {
            linked(before, scopes.last().pairs)
        } else {
            before
        }
    }
}

/// Some pair of `scopes` recorded for `scope` has an end whose root is `root`.
pub open spec fn pairs_register(
    links: Map<NodeId, NodeId>,
    scopes: Seq<ScopePairs>,
    scope: ScopeId,
    root: NodeId,
) -> bool {
    exists|i: int, j: int|
        #![trigger scopes[i].pairs[j]]
        0 <= i < scopes.len() && 0 <= j < scopes[i].pairs.len() && scopes[i].scope == scope && (
        root_of(links, scopes[i].pairs[j].0) == root || root_of(links, scopes[i].pairs[j].1)
            == root)
}

/// How many pairs `scopes` has.
pub open spec fn pair_count(scopes: Seq<ScopePairs>) -> nat
    decreases scopes.len(),
{
    if scopes.len() == 0 {
        0
    } else {
        pair_count(scopes.drop_last()) + scopes.last().pairs.len()
    }
}

/// Recording `snap` separates nothing that was together.
pub open spec fn snapshot_survives(f: &ScopedForest, snap: SnapshotView) -> bool {
    &&& links_survive(f.mem_shared(), snap.global)
    &&& forall|i: int|
        0 <= i < snap.scopes.len() ==> links_survive(
            hydrated_overlay(
                f.mem_overlay(snap.scopes[i].scope),
                snap.scopes.take(i),
                snap.scopes[i].scope,
            ),
            (#[trigger] snap.scopes[i]).pairs,
        )
}

impl ScopedForest {
    /// Committed state is attached.
    pub closed spec fn has_base(&self) -> bool {
        self.base is Some
    }

    /// Overlay links recorded so far, by [`ForestStats::scope_links`].
    pub closed spec fn scope_link_count(&self) -> u64 {
        self.scope_links
    }

    /// This is `before` with the pairs of `snap` recorded: the shared pairs,
    /// every scope's overlay pairs, and every scope registered on the live
    /// shared roots of its pairs' ends.
    pub open spec fn hydrated(&self, before: &ScopedForest, snap: SnapshotView) -> bool {
        let shared = linked(before.mem_shared(), snap.global);
        &&& !self.has_base()
        &&& self.mem_shared().dom() == shared.dom()
        &&& forall|x: NodeId| root_of(self.mem_shared(), x) == root_of(shared, x)
        &&& forall|s: ScopeId| #[trigger]
            self.mem_overlay(s) == hydrated_overlay(before.mem_overlay(s), snap.scopes, s)
        &&& forall|r: NodeId, s: ScopeId| #[trigger]
            self.mem_registered(r).contains(s) <==> before.mem_registered(r).contains(s)
                || pairs_register(shared, snap.scopes, s, r)
        &&& self.event_count() == before.event_count()
        &&& self.fold_count() == before.fold_count()
        &&& self.tracking() == before.tracking()
        &&& self.fixup_count() == before.fixup_count()
        &&& self.scope_link_count() == counted(
            before.scope_link_count(),
            pair_count(snap.scopes),
        )
    }

    /// Capture a consistent snapshot in the heap. Convenience over
    /// [`ScopedForest::compact_into`] for RAM-mode callers and tests; the
    /// flush path streams instead of collecting.
    pub fn snapshot(&mut self) -> (snap: ForestSnapshot)
        requires
            old(self).wf(),
        ensures
            final(self).wf(),
            final(self).agrees(old(self)),
            old(self).indexed() ==> final(self).indexed(),
            old(self).consistent() ==> {
                &&& snap@.global == collected(old(self).stream(true)).global
                &&& snap@.scopes == collected(old(self).stream(true)).scopes
                &&& old(self).captured_in(snap@)
            },
    {
        let mut c = SnapshotCollector::new();
        self.compact_into(&mut c);
        proof {
            if old(self).consistent() {
                old(self).collecting_the_stream_captures();
                assert(c.received() =~= old(self).stream(true));
            }
        }
        let snap = c.into_snapshot();
        assert(old(self).consistent() ==> snap@ =~= (SnapshotView {
            global: collected(old(self).stream(true)).global,
            scopes: collected(old(self).stream(true)).scopes,
        }));
        snap
    }

    /// Rebuild forest state from a snapshot (startup recovery path).
    ///
    /// RAM mode only: loading pairs into the memtable would break the
    /// "memtable keys are composed roots" invariant if a base were attached
    /// (use [`ScopedForest::with_base`] instead).
    pub fn hydrate(&mut self, snap: &ForestSnapshot)
        requires
            old(self).wf(),
            !old(self).has_base(),
            snap@.canonical(),
        ensures
            final(self).wf(),
            final(self).hydrated(old(self), snap@),
            old(self).indexed() && snapshot_survives(old(self), snap@) ==> final(self).indexed(),
    {
        let ghost start = *self;
        let ghost view = snap@;
        self.mem.hydrate_shared(&snap.global);
        let ghost shared = self.mem.shared_links();
        let mut i: usize = 0;
        while i < snap.scopes.len()
            invariant
                i <= snap.scopes.len(),
                view == snap@,
                view.canonical(),
                self.wf(),
                self.base is None,
                self.mem_shared().dom() == shared.dom(),
                forall|x: NodeId| root_of(self.mem_shared(), x) == root_of(shared, x),
                forall|s: ScopeId| #[trigger]
                    self.mem_overlay(s) == hydrated_overlay(
                        start.mem_overlay(s),
                        view.scopes.take(i as int),
                        s,
                    ),
                forall|r: NodeId, s: ScopeId| #[trigger]
                    self.mem_registered(r).contains(s) <==> start.mem_registered(r).contains(s)
                        || pairs_register(shared, view.scopes.take(i as int), s, r),
                self.events_applied == start.events_applied,
                self.folds == start.folds,
                self.member_index == start.member_index,
                self.fixups == start.fixups,
                self.scope_links == counted(
                    start.scope_links,
                    pair_count(view.scopes.take(i as int)),
                ),
                start.indexed() && snapshot_survives(&start, view) ==> self.indexed(),
            decreases snap.scopes.len() - i,
        {
            let scope: ScopeId = snap.scopes[i].0;
            let pairs: &Vec<(NodeId, NodeId)> = &snap.scopes[i].1;
            let ghost prior = *self;
            let ghost so_far = view.scopes.take(i as int);
            let ghost next = view.scopes.take(i + 1);
            proof {
                assert(view.scopes[i as int] == scope_pairs_view(snap.scopes@[i as int]));
                assert(next.drop_last() =~= so_far);
                assert(next.last() == view.scopes[i as int]);
            }
            self.mem.hydrate_overlay(scope, pairs);
            let only: Vec<ScopeId> = vec![scope];
            assert(only@.to_set() =~= set![scope]) by {
                assert forall|x: ScopeId| only@.to_set().contains(x) == set![scope].contains(x) by {
                    assert(only@[0] == scope);
                }
            }
            let ghost overlaid = *self;
            // Re-register overlay members under their *current* global roots so
            // future global merges keep notifying this scope. Members may be
            // stale global roots; resolving through the hydrated global DSU
            // lands on the live root.
            let mut j: usize = 0;
            while j < pairs.len()
                invariant
                    j <= pairs.len(),
                    only@.to_set() == set![scope],
                    self.wf(),
                    self.base is None,
                    self.mem.overlays() == overlaid.mem.overlays(),
                    self.mem_shared().dom() == shared.dom(),
                    forall|x: NodeId| root_of(self.mem_shared(), x) == root_of(shared, x),
                    forall|r: NodeId, s: ScopeId| #[trigger]
                        self.mem_registered(r).contains(s) <==> overlaid.mem_registered(
                            r,
                        ).contains(s) || (s == scope && ends_at(shared, pairs@.take(j as int), r)),
                    self.events_applied == start.events_applied,
                    self.folds == start.folds,
                    self.member_index == start.member_index,
                    self.fixups == start.fixups,
                    self.scope_links == overlaid.scope_links,
                    overlaid.indexed() ==> self.indexed(),
                decreases pairs.len() - j,
            {
                let (a, b): (NodeId, NodeId) = pairs[j];
                let ghost here = *self;
                let live_a: NodeId = self.mem.shared_find_only(a);
                self.mem.register(live_a, &only);
                let ghost half = *self;
                let live_b: NodeId = self.mem.shared_find_only(b);
                self.mem.register(live_b, &only);
                proof {
                    let seen = pairs@.take(j as int);
                    let now = pairs@.take(j + 1);
                    assert forall|r: NodeId, s: ScopeId| #[trigger]
                        self.mem_registered(r).contains(s) <==> overlaid.mem_registered(
                            r,
                        ).contains(s) || (s == scope && ends_at(shared, now, r)) by {
                        ends_at_push(shared, pairs@, j as int, r);
                        assert(half.mem_registered(r).contains(s) <==> here.mem_registered(
                            r,
                        ).contains(s) || (s == scope && r == live_a)) by {
                            assert(half.mem_registered(r) == (if r == live_a {
                                here.mem_registered(r).union(set![scope])
                            } else {
                                here.mem_registered(r)
                            }));
                        }
                        assert(self.mem_registered(r).contains(s) <==> half.mem_registered(
                            r,
                        ).contains(s) || (s == scope && r == live_b)) by {
                            assert(self.mem_registered(r) == (if r == live_b {
                                half.mem_registered(r).union(set![scope])
                            } else {
                                half.mem_registered(r)
                            }));
                        }
                    }
                }
                j += 1;
            }
            let ghost listed = *self;
            self.scope_links = self.scope_links.wrapping_add(pairs.len() as u64);
            proof {
                assert(pairs@.take(j as int) =~= pairs@);
                assert(view.scopes[i as int].pairs == pairs@);
                assert(view.scopes[i as int].scope == scope);
                assert forall|s: ScopeId| #[trigger] self.mem_overlay(s) == hydrated_overlay(
                    start.mem_overlay(s),
                    next,
                    s,
                ) by {
                    assert(self.mem_overlay(s) == overlaid.mem_overlay(s));
                    assert(prior.mem_overlay(s) == hydrated_overlay(
                        start.mem_overlay(s),
                        so_far,
                        s,
                    ));
                    if s != scope {
                        assert(overlaid.mem.overlay_links(s) == prior.mem.overlay_links(s));
                    }
                }
                assert forall|r: NodeId, s: ScopeId| #[trigger]
                    self.mem_registered(r).contains(s) <==> start.mem_registered(r).contains(s)
                        || pairs_register(shared, next, s, r) by {
                    assert(overlaid.mem_registered(r) == prior.mem_registered(r));
                    assert(listed.mem_registered(r).contains(s) <==> overlaid.mem_registered(
                        r,
                    ).contains(s) || (s == scope && ends_at(shared, pairs@, r)));
                    assert(self.mem_registered(r) == listed.mem_registered(r));
                    assert(prior.mem_registered(r).contains(s) <==> start.mem_registered(
                        r,
                    ).contains(s) || pairs_register(shared, so_far, s, r));
                    pairs_register_push(shared, view.scopes, i as int, s, r);
                }
                if start.indexed() && snapshot_survives(&start, view) {
                    assert(links_survive(prior.mem_overlay(scope), pairs@)) by {
                        assert(prior.mem_overlay(scope) == hydrated_overlay(
                            start.mem_overlay(scope),
                            so_far,
                            scope,
                        ));
                        assert(view.scopes[i as int].pairs == pairs@);
                    }
                }
            }
            i += 1;
        }
        proof {
            assert(view.scopes.take(i as int) =~= view.scopes);
        }
    }
}

/// Recording a listing of resolved links from nothing gives those links.
proof fn linking_a_listing(pairs: Seq<(NodeId, NodeId)>, links: Map<NodeId, NodeId>)
    requires
        lists(pairs, links),
        resolved(links),
    ensures
        pairs_descend(pairs),
        linked(Map::empty(), pairs) == links,
        links_survive(Map::empty(), pairs),
        forall|x: NodeId| root_of(links, x) == step_up(links, x),
{
    let none = Map::<NodeId, NodeId>::empty();
    let after = linked(none, pairs);
    assert forall|k: NodeId| #[trigger] after.contains_key(k) == links.contains_key(k) && (
    after.contains_key(k) ==> after[k] == links[k]) by {
        linked_lookup(none, pairs, k);
        if links.contains_key(k) {
            let i = choose|i: int| 0 <= i < pairs.len() && (#[trigger] pairs[i]).0 == k;
            assert(pairs[i].1 == links[k] && links[k] < k);
        }
        if after.contains_key(k) {
            let i = choose|i: int|
                0 <= i < pairs.len() && #[trigger] pairs[i] == (k, after[k]) && k != after[k];
            assert(links[k] == after[k]);
        }
    }
    assert(after =~= links);
    assert forall|x: NodeId| root_of(links, x) == step_up(links, x) by {
        if links.contains_key(x) {
            assert(!links.contains_key(links[x]));
            assert(root_of(links, links[x]) == links[x]);
        }
    }
    assert forall|i: int| 0 <= i < pairs.len() implies (#[trigger] pairs[i]).1 <= pairs[i].0
        && root_of(after, pairs[i].0) == root_of(after, pairs[i].1) by {
        assert(links.contains_key(pairs[i].0));
        assert(!links.contains_key(links[pairs[i].0]));
        assert(root_of(links, pairs[i].1) == step_up(links, pairs[i].1));
    }
}

/// With each scope listed once, recording a list of scopes from nothing gives
/// each scope its own pairs.
proof fn hydrating_distinct_scopes(scopes: Seq<ScopePairs>, scope: ScopeId)
    requires
        forall|i: int, j: int|
            0 <= i < j < scopes.len() ==> (#[trigger] scopes[i]).scope < (
            #[trigger] scopes[j]).scope,
    ensures
        !lists_scope(scopes, scope) ==> hydrated_overlay(Map::empty(), scopes, scope)
            == Map::<NodeId, NodeId>::empty(),
        forall|i: int|
            0 <= i < scopes.len() && (#[trigger] scopes[i]).scope == scope ==> hydrated_overlay(
                Map::empty(),
                scopes,
                scope,
            ) == linked(Map::empty(), scopes[i].pairs),
    decreases scopes.len(),
{
    if scopes.len() > 0 {
        let front = scopes.drop_last();
        assert forall|i: int, j: int| 0 <= i < j < front.len() implies (#[trigger] front[i]).scope
            < (#[trigger] front[j]).scope by {
            assert(scopes[i].scope < scopes[j].scope);
        }
        hydrating_distinct_scopes(front, scope);
        let last = scopes.len() - 1;
        if scopes.last().scope == scope {
            assert(!lists_scope(front, scope)) by {
                if lists_scope(front, scope) {
                    let i = choose|i: int| 0 <= i < front.len() && (#[trigger] front[i]).scope
                        == scope;
                    assert(scopes[i].scope < scopes[last].scope);
                }
            }
            assert(scopes[last].scope == scope);
        }
        if lists_scope(front, scope) {
            let i = choose|i: int| 0 <= i < front.len() && (#[trigger] front[i]).scope == scope;
            assert(scopes[i].scope == scope);
        }
        assert forall|i: int|
            0 <= i < scopes.len() && (#[trigger] scopes[i]).scope == scope implies hydrated_overlay(
            Map::empty(),
            scopes,
            scope,
        ) == linked(Map::empty(), scopes[i].pairs) by {
            if i < last {
                assert(front[i].scope == scope);
                assert(scopes[i].scope < scopes[last].scope);
            }
        }
    }
}

impl ScopedForest {
    /// **Recovery restores every answer**: hydrating an empty forest from a
    /// capture of `self` gives a consistent forest that answers every query
    /// alike, and keeps notifying the scopes of later merges.
    pub proof fn hydrating_a_capture_restores_every_answer(
        &self,
        snap: SnapshotView,
        empty: &ScopedForest,
        fresh: &ScopedForest,
    )
        requires
            self.wf(),
            self.consistent(),
            self.captured_in(snap),
            empty.mem_is_fresh(),
            !empty.has_base(),
            fresh.wf(),
            fresh.hydrated(empty, snap),
        ensures
            fresh.consistent(),
            forall|s: ScopeId, x: NodeId| #[trigger] fresh.root_in(s, x) == self.root_in(s, x),
    {
        self.captures_can_be_hydrated(snap, empty);
        self.encoded_pairs_resolve(None);
        linking_a_listing(snap.global, self.encoded(None));
        let links = self.encoded(None);
        assert(linked(empty.mem_shared(), snap.global) == links);
        assert forall|x: NodeId| #[trigger] fresh.shared(x) == self.shared(x) by {
            assert(root_of(fresh.mem_shared(), x) == root_of(links, x));
            assert(root_of(links, x) == step_up(links, x));
            assert(step_up(links, x) == self.root_at(None, x));
        }
        assert forall|s: ScopeId| #[trigger] fresh.mem_overlay(s) == self.encoded(Some(s)) by {
            self.overlay_hydrates_to_encoded(snap, empty, s);
        }
        assert forall|s: ScopeId, x: NodeId| #[trigger] fresh.overlay(s, x) == self.overlay(
            s,
            x,
        ) by {
            self.encoded_pairs_resolve(Some(s));
            let e = self.encoded(Some(s));
            assert(fresh.mem_overlay(s) == e);
            assert(root_of(e, x) == step_up(e, x)) by {
                if e.contains_key(x) {
                    assert(root_of(e, e[x]) == e[x]);
                }
            }
            assert(step_up(e, x) == self.root_at(Some(s), x));
        }
        assert forall|s: ScopeId, x: NodeId| #[trigger] fresh.root_in(s, x) == self.root_in(
            s,
            x,
        ) by {
            assert(fresh.overlay(s, fresh.shared(x)) == self.overlay(s, self.shared(x)));
        }
        assert forall|s: ScopeId| #[trigger] fresh.elements_follow(s) by {
            assert(self.elements_follow(s));
            assert forall|k: NodeId| (#[trigger] fresh.overlay(s, k)) != k implies fresh.overlay(
                s,
                fresh.shared(k),
            ) == fresh.overlay(s, k) && fresh.overlay(s, fresh.shared(fresh.overlay(s, k)))
                == fresh.overlay(s, k) by {
                assert(self.overlay(s, k) != k);
            }
        }
        assert forall|s: ScopeId, c: NodeId| #[trigger] fresh.unnoticed(s, c) implies fresh.lone(
            s,
            c,
        ) by {
            self.encoded_pairs_resolve(Some(s));
            assert forall|k: NodeId| (#[trigger] fresh.overlay(s, k)) != k implies fresh.shared(k)
                != c && fresh.shared(fresh.overlay(s, k)) != c by {
                assert(self.overlay(s, k) != k);
                assert(self.root_at(Some(s), k) != k);
                assert(self.encoded(Some(s)).contains_key(k));
                if fresh.shared(k) == c || fresh.shared(fresh.overlay(s, k)) == c {
                    self.pair_is_registered(snap, s, k, c);
                    assert(fresh.mem_registered(c).contains(s));
                }
            }
        }
        assert(above(fresh.mem_shared(), fresh.base_shared()));
        assert forall|s: ScopeId| above(#[trigger] fresh.mem_overlay(s), fresh.base_overlay(s)) by {}
    }

    /// The overlay pair of `k` registers its scope on the shared root `c` of
    /// either end.
    proof fn pair_is_registered(
        &self,
        snap: SnapshotView,
        s: ScopeId,
        k: NodeId,
        c: NodeId,
    )
        requires
            self.wf(),
            self.consistent(),
            self.captured_in(snap),
            self.encoded(Some(s)).contains_key(k),
            self.shared(k) == c || self.shared(self.overlay(s, k)) == c,
        ensures
            pairs_register(self.encoded(None), snap.scopes, s, c),
    {
        assert(lists_scope(snap.scopes, s));
        let i = choose|i: int| 0 <= i < snap.scopes.len() && (#[trigger] snap.scopes[i]).scope == s;
        let pairs = snap.scopes[i].pairs;
        assert(lists(pairs, self.encoded(Some(s))));
        let j = choose|j: int| 0 <= j < pairs.len() && (#[trigger] pairs[j]).0 == k;
        assert(snap.scopes[i].pairs[j] == (k, self.encoded(Some(s))[k]));
        self.encoded_pairs_resolve(None);
        linking_a_listing(snap.global, self.encoded(None));
        assert(root_of(self.encoded(None), k) == self.shared(k)) by {
            assert(step_up(self.encoded(None), k) == self.root_at(None, k));
        }
        let v = self.overlay(s, k);
        assert(root_of(self.encoded(None), v) == self.shared(v)) by {
            assert(step_up(self.encoded(None), v) == self.root_at(None, v));
        }
    }

    proof fn overlay_hydrates_to_encoded(
        &self,
        snap: SnapshotView,
        empty: &ScopedForest,
        s: ScopeId,
    )
        requires
            self.wf(),
            self.consistent(),
            self.captured_in(snap),
            empty.mem_is_fresh(),
        ensures
            hydrated_overlay(empty.mem_overlay(s), snap.scopes, s) == self.encoded(Some(s)),
    {
        let e = self.encoded(Some(s));
        self.encoded_pairs_resolve(Some(s));
        hydrating_distinct_scopes(snap.scopes, s);
        assert(empty.mem_overlay(s) == Map::<NodeId, NodeId>::empty());
        if lists_scope(snap.scopes, s) {
            let i = choose|i: int|
                0 <= i < snap.scopes.len() && (#[trigger] snap.scopes[i]).scope == s;
            linking_a_listing(snap.scopes[i].pairs, e);
        } else {
            assert forall|k: NodeId| !(#[trigger] e.contains_key(k)) by {
                if e.contains_key(k) {
                    assert(lists_scope(snap.scopes, s));
                }
            }
            assert(e =~= Map::<NodeId, NodeId>::empty());
        }
    }

    /// A capture of a forest can be hydrated into an empty one, and leaves its
    /// member index covering every component.
    pub proof fn captures_can_be_hydrated(&self, snap: SnapshotView, empty: &ScopedForest)
        requires
            self.wf(),
            self.consistent(),
            self.captured_in(snap),
            empty.mem_is_fresh(),
        ensures
            snap.canonical(),
            snapshot_survives(empty, snap),
    {
        self.encoded_pairs_resolve(None);
        linking_a_listing(snap.global, self.encoded(None));
        assert(empty.mem_shared() == Map::<NodeId, NodeId>::empty());
        assert forall|i: int| 0 <= i < snap.scopes.len() implies pairs_descend(
            (#[trigger] snap.scopes[i]).pairs,
        ) && links_survive(
            hydrated_overlay(
                empty.mem_overlay(snap.scopes[i].scope),
                snap.scopes.take(i),
                snap.scopes[i].scope,
            ),
            snap.scopes[i].pairs,
        ) by {
            let s = snap.scopes[i].scope;
            self.encoded_pairs_resolve(Some(s));
            linking_a_listing(snap.scopes[i].pairs, self.encoded(Some(s)));
            let front = snap.scopes.take(i);
            assert forall|a: int, b: int| 0 <= a < b < front.len() implies (
            #[trigger] front[a]).scope < (#[trigger] front[b]).scope by {
                assert(snap.scopes[a].scope < snap.scopes[b].scope);
            }
            hydrating_distinct_scopes(front, s);
            assert(!lists_scope(front, s)) by {
                if lists_scope(front, s) {
                    let a = choose|a: int| 0 <= a < front.len() && (#[trigger] front[a]).scope == s;
                    assert(snap.scopes[a].scope < snap.scopes[i].scope);
                }
            }
            assert(empty.mem_overlay(s) == Map::<NodeId, NodeId>::empty());
        }
    }
}

/// Some pair has an end whose root is `root`.
pub open spec fn ends_at(
    links: Map<NodeId, NodeId>,
    pairs: Seq<(NodeId, NodeId)>,
    root: NodeId,
) -> bool {
    exists|j: int|
        0 <= j < pairs.len() && (root_of(links, (#[trigger] pairs[j]).0) == root || root_of(
            links,
            pairs[j].1,
        ) == root)
}

proof fn ends_at_push(
    links: Map<NodeId, NodeId>,
    pairs: Seq<(NodeId, NodeId)>,
    j: int,
    root: NodeId,
)
    requires
        0 <= j < pairs.len(),
    ensures
        ends_at(links, pairs.take(j + 1), root) <==> ends_at(links, pairs.take(j), root) || root_of(
            links,
            pairs[j].0,
        ) == root || root_of(links, pairs[j].1) == root,
{
    let now = pairs.take(j + 1);
    let was = pairs.take(j);
    if ends_at(links, now, root) {
        let k = choose|k: int|
            0 <= k < now.len() && (root_of(links, (#[trigger] now[k]).0) == root || root_of(
                links,
                now[k].1,
            ) == root);
        if k < j {
            assert(was[k] == now[k]);
        }
    }
    if ends_at(links, was, root) {
        let k = choose|k: int|
            0 <= k < was.len() && (root_of(links, (#[trigger] was[k]).0) == root || root_of(
                links,
                was[k].1,
            ) == root);
        assert(was[k] == now[k]);
    }
    assert(now[j] == pairs[j]);
}

proof fn pairs_register_push(
    links: Map<NodeId, NodeId>,
    scopes: Seq<ScopePairs>,
    i: int,
    scope: ScopeId,
    root: NodeId,
)
    requires
        0 <= i < scopes.len(),
    ensures
        pairs_register(links, scopes.take(i + 1), scope, root) <==> pairs_register(
            links,
            scopes.take(i),
            scope,
            root,
        ) || (scopes[i].scope == scope && ends_at(links, scopes[i].pairs, root)),
{
    let now = scopes.take(i + 1);
    let was = scopes.take(i);
    if pairs_register(links, now, scope, root) {
        let (a, b) = choose|a: int, b: int|
            #![trigger now[a].pairs[b]]
            0 <= a < now.len() && 0 <= b < now[a].pairs.len() && now[a].scope == scope && (root_of(
                links,
                now[a].pairs[b].0,
            ) == root || root_of(links, now[a].pairs[b].1) == root);
        if a < i {
            assert(was[a].pairs[b] == now[a].pairs[b]);
        } else {
            assert(scopes[i].pairs[b] == now[a].pairs[b]);
        }
    }
    if pairs_register(links, was, scope, root) {
        let (a, b) = choose|a: int, b: int|
            #![trigger was[a].pairs[b]]
            0 <= a < was.len() && 0 <= b < was[a].pairs.len() && was[a].scope == scope && (root_of(
                links,
                was[a].pairs[b].0,
            ) == root || root_of(links, was[a].pairs[b].1) == root);
        assert(was[a].pairs[b] == now[a].pairs[b]);
    }
    if scopes[i].scope == scope && ends_at(links, scopes[i].pairs, root) {
        let b = choose|b: int|
            0 <= b < scopes[i].pairs.len() && (root_of(links, (#[trigger] scopes[i].pairs[b]).0)
                == root || root_of(links, scopes[i].pairs[b].1) == root);
        assert(now[i].pairs[b] == scopes[i].pairs[b]);
    }
}

/// Whether `scopes` has an entry for `s`.
pub open spec fn lists_scope(scopes: Seq<ScopePairs>, s: ScopeId) -> bool {
    exists|i: int| 0 <= i < scopes.len() && (#[trigger] scopes[i]).scope == s
}

/// Entry `i` of `got` is a scope of `scopes` with all its resolved pairs.
spec fn scope_collected(
    f: &ScopedForest,
    whole: bool,
    scopes: Seq<ScopeId>,
    got: Seq<ScopePairs>,
    i: int,
) -> bool {
    &&& scopes.contains(got[i].scope)
    &&& got[i].pairs.len() > 0
    &&& lists(got[i].pairs, f.streamed_links(Some(got[i].scope), whole))
}

/// `got` has the scopes of `scopes` with a resolved pair, in order.
spec fn scopes_collected(
    f: &ScopedForest,
    whole: bool,
    scopes: Seq<ScopeId>,
    got: Seq<ScopePairs>,
) -> bool {
    &&& forall|i: int| 0 <= i < got.len() ==> #[trigger] scope_collected(f, whole, scopes, got, i)
    &&& forall|i: int, j: int|
        0 <= i < j < got.len() ==> (#[trigger] got[i]).scope < (#[trigger] got[j]).scope
    &&& forall|s: ScopeId, k: NodeId|
        scopes.contains(s) && #[trigger] f.streamed_links(Some(s), whole).contains_key(k)
            ==> lists_scope(got, s)
}

/// Whether `pairs` has an entry for `x`.
pub open spec fn has_key(pairs: Seq<(NodeId, NodeId)>, x: NodeId) -> bool {
    exists|a: int| 0 <= a < pairs.len() && (#[trigger] pairs[a]).0 == x
}

proof fn has_key_push(pairs: Seq<(NodeId, NodeId)>, j: int, x: NodeId)
    requires
        0 <= j < pairs.len(),
    ensures
        has_key(pairs.take(j + 1), x) <==> has_key(pairs.take(j), x) || pairs[j].0 == x,
{
    if has_key(pairs.take(j + 1), x) {
        let a = choose|a: int|
            0 <= a < pairs.take(j + 1).len() && (#[trigger] pairs.take(j + 1)[a]).0 == x;
        if a < j {
            assert(pairs.take(j)[a].0 == x);
        }
    }
    if has_key(pairs.take(j), x) {
        let a = choose|a: int|
            0 <= a < pairs.take(j).len() && (#[trigger] pairs.take(j)[a]).0 == x;
        assert(pairs.take(j + 1)[a].0 == x);
    }
    if pairs[j].0 == x {
        assert(pairs.take(j + 1)[j].0 == x);
    }
}

proof fn push_contains(s: Seq<NodeId>, k: NodeId, x: NodeId)
    ensures
        s.push(k).contains(x) <==> s.contains(x) || x == k,
{
    if s.contains(x) {
        let i = s.index_of(x);
        assert(s.push(k)[i] == x);
    }
    if s.push(k).contains(x) {
        let i = s.push(k).index_of(x);
        if i < s.len() {
            assert(s[i] == x);
        }
    }
    assert(s.push(k)[s.len() as int] == k);
}

// --- membership --------------------------------------------------------------

/// The first node that a walk with room for any admits is the first seed.
pub open spec fn starts_at(walk: &Walk, seeds: Seq<NodeId>) -> bool {
    walk.cap() > 0 && seeds.len() > 0 ==> walk.admitted().len() > 0 && walk.admitted()[0]
        == seeds[0]
}

impl ScopedForest {
    /// What the base answers a query for at most `limit` nodes below `parent`.
    closed spec fn base_some(&self, level: Option<ScopeId>, parent: NodeId, limit: nat) -> Seq<
        NodeId,
    > {
        match self.base {
            Some(b) => match level {
                None => b.shared_some(parent, limit),
                Some(s) => b.overlay_some(s, parent, limit),
            },
            None => Seq::empty(),
        }
    }

    /// A query for some of the base's lists answers the first of them.
    closed spec fn lists_limited(&self) -> bool {
        forall|level: Option<ScopeId>, p: NodeId, limit: nat| #[trigger]
            self.base_some(level, p, limit) == first(self.base_kids(level, p), limit)
    }

    /// Nodes the base lists below `parent` at a level.
    closed spec fn base_kids(&self, level: Option<ScopeId>, parent: NodeId) -> Seq<NodeId> {
        match self.base {
            Some(b) => match level {
                None => b.shared_kids(parent),
                Some(s) => b.overlay_kids(s, parent),
            },
            None => Seq::empty(),
        }
    }

    /// Nodes the memtable lists below `parent` at a level.
    closed spec fn mem_kids(&self, level: Option<ScopeId>, parent: NodeId) -> Seq<NodeId> {
        match level {
            None => listed(self.mem.shared_edges(), parent),
            Some(s) => listed(self.mem.overlay_edges(s), parent),
        }
    }

    /// Whether `k` is listed directly below `parent` at a level.
    closed spec fn lists_below(
        &self,
        level: Option<ScopeId>,
        parent: NodeId,
        k: NodeId,
    ) -> bool {
        self.mem_kids(level, parent).contains(k) || self.base_kids(level, parent).contains(k)
    }

    /// The base, where there is one, answers downward queries.
    pub closed spec fn base_lists_members(&self) -> bool {
        self.base matches Some(b) ==> b.member_indexed()
    }

    /// The base, where there is one, lists what it links.
    pub closed spec fn base_members_covered(&self) -> bool {
        self.base matches Some(b) ==> valid_member_index(&*b)
    }

    /// What the base says about members is what `b` says.
    pub open spec fn lists_members_as<B: RoutingBase + ?Sized>(&self, b: &B) -> bool {
        &&& self.base_lists_members() == b.member_indexed()
        &&& self.base_members_covered() == valid_member_index(b)
    }

    /// Merge edges are tracked downward, here and in the base.
    pub open spec fn answers_members(&self) -> bool {
        self.tracking() && self.base_lists_members()
    }

    /// The member indexes cover every component: the memtable's does, and the
    /// base's lists what the base links.
    pub open spec fn members_covered(&self) -> bool {
        self.indexed() && self.base_members_covered()
    }

    /// **A forest in the heap answers members exactly when it tracks them**, and
    /// then completely.
    pub proof fn a_tracking_forest_lists_members(&self)
        requires
            !self.has_base(),
        ensures
            self.answers_members() == self.tracking(),
            self.indexed() ==> self.members_covered(),
    {
    }

    /// Forests over one committed state have the same setup.
    pub proof fn one_base_one_setup(&self, o: &ScopedForest)
        requires
            self.base_is(o),
        ensures
            self.has_base() == o.has_base(),
            self.tracking() == o.tracking(),
            self.fold_count() == o.fold_count(),
            self.base_lists_members() == o.base_lists_members(),
            self.base_members_covered() == o.base_members_covered(),
            self.answers_members() == o.answers_members(),
    {
    }

    /// Agreeing forests have the same setup and counters.
    pub proof fn agreement_keeps_the_setup(&self, o: &ScopedForest)
        requires
            self.agrees(o),
        ensures
            self.has_base() == o.has_base(),
            self.tracking() == o.tracking(),
            self.event_count() == o.event_count(),
            self.scope_link_count() == o.scope_link_count(),
            self.fixup_count() == o.fixup_count(),
            self.fold_count() == o.fold_count(),
            self.merge_count() == o.merge_count(),
            self.base_lists_members() == o.base_lists_members(),
            self.base_members_covered() == o.base_members_covered(),
            self.answers_members() == o.answers_members(),
    {
    }

    /// No base list repeats a node or outgrows memory.
    closed spec fn lists_are_short(&self) -> bool {
        &&& self.lists_limited()
        &&& forall|level: Option<ScopeId>, p: NodeId|
            (#[trigger] self.base_kids(level, p)).no_duplicates() && self.base_kids(level, p).len()
                < usize::MAX
    }

    proof fn agreeing_forests_list_alike(&self, o: &ScopedForest)
        requires
            self.resolves_like(o),
        ensures
            forall|level: Option<ScopeId>, p: NodeId| #[trigger]
                self.mem_kids(level, p) == o.mem_kids(level, p),
            forall|level: Option<ScopeId>, p: NodeId| #[trigger]
                self.base_kids(level, p) == o.base_kids(level, p),
            forall|level: Option<ScopeId>, p: NodeId, limit: nat| #[trigger]
                self.base_some(level, p, limit) == o.base_some(level, p, limit),
    {
        assert forall|level: Option<ScopeId>, p: NodeId| #[trigger]
            self.mem_kids(level, p) == o.mem_kids(level, p) by {
            if let Some(s) = level {
                assert(self.mem.overlay_like(&o.mem, s));
            }
        }
    }

    /// Nodes listed below `parent`, at most `limit` of them from the base.
    fn children_at(
        &mut self,
        level: Option<ScopeId>,
        parent: NodeId,
        limit: usize,
        out: &mut Vec<NodeId>,
    )
        requires
            old(self).wf(),
        ensures
            final(self).wf(),
            final(self).agrees(old(self)),
            old(self).indexed() ==> final(self).indexed(),
            final(out)@ == old(out)@ + old(self).mem_kids(level, parent) + old(self).base_some(
                level,
                parent,
                limit as nat,
            ),
    {
        match level {
            None => self.mem.shared_children(parent, out),
            Some(s) => self.mem.overlay_children(s, parent, out),
        }
        match &self.base {
            Some(b) => match level {
                None => b.shared_children(parent, limit, out),
                Some(s) => b.overlay_children(s, parent, limit, out),
            },
            None => {
                assert(out@ =~= out@ + Seq::<NodeId>::empty());
            },
        }
    }

    /// A walk from `seeds` only meets nodes that satisfy `good`.
    closed spec fn stays_within(
        &self,
        level: Option<ScopeId>,
        seeds: Seq<NodeId>,
        good: spec_fn(NodeId) -> bool,
    ) -> bool {
        &&& self.lists_limited()
        &&& forall|i: int| 0 <= i < seeds.len() ==> good(#[trigger] seeds[i])
        &&& forall|p: NodeId, k: NodeId|
            good(p) && #[trigger] self.lists_below(level, p, k) ==> good(k)
    }

    /// Walk downward from `seeds`.
    ///
    /// Stops the moment the cap is exceeded: an unbounded frontier is exactly
    /// the failure mode the cap exists to prevent, so there is no point
    /// draining it to discover the truncation a second time.
    fn expand(
        &mut self,
        walk: &mut Walk,
        level: Option<ScopeId>,
        seeds: &Vec<NodeId>,
        good: Ghost<spec_fn(NodeId) -> bool>,
    )
        requires
            old(self).wf(),
            old(walk).wf(),
            !old(walk).is_full(),
            old(walk).admitted().len() == 0,
        ensures
            final(self).wf(),
            final(self).agrees(old(self)),
            old(self).indexed() ==> final(self).indexed(),
            final(walk).wf(),
            final(walk).cap() == old(walk).cap(),
            starts_at(final(walk), seeds@),
            old(self).stays_within(level, seeds@, good@) ==> forall|n: NodeId| #[trigger]
                final(walk).offered().contains(n) ==> good@(n),
            !final(walk).is_full() ==> forall|i: int|
                0 <= i < seeds@.len() ==> final(walk).admitted().contains(#[trigger] seeds@[i]),
            !final(walk).is_full() && old(self).lists_are_short() ==> forall|
                p: NodeId,
                k: NodeId,
            |
                final(walk).admitted().contains(p) && #[trigger] old(self).lists_below(level, p, k)
                    ==> final(walk).admitted().contains(k),
    {
        let ghost start = *self;
        let ghost cap = walk.cap();
        let ghost within = start.stays_within(level, seeds@, good@);
        let limit: usize = walk.child_limit();
        let mut frontier: Vec<NodeId> = Vec::new();
        let mut i: usize = 0;
        proof {
            walk.walk_facts();
            assert forall|n: NodeId| !(#[trigger] walk.offered().contains(n)) by {
                assert(!walk.admitted().contains(n));
            }
        }
        while i < seeds.len()
            invariant
                i <= seeds.len(),
                walk.wf(),
                !walk.is_full(),
                walk.cap() == cap,
                forall|n: NodeId| walk.admitted().contains(n) <==> frontier@.contains(n),
                forall|j: int|
                    0 <= j < i ==> walk.admitted().contains(#[trigger] seeds@[j]),
                i == 0 ==> walk.admitted().len() == 0 && forall|n: NodeId|
                    !(#[trigger] walk.offered().contains(n)),
                i > 0 ==> starts_at(walk, seeds@),
                within ==> forall|n: NodeId| #[trigger]
                    walk.offered().contains(n) ==> good@(n),
                *self == start,
                *self == *old(self),
                start.wf(),
                cap == old(walk).cap(),
                within == start.stays_within(level, seeds@, good@),
            decreases seeds.len() - i,
        {
            let s: NodeId = seeds[i];
            let ghost was = walk.admitted();
            let ghost lined = frontier@;
            proof {
                walk.walk_facts();
            }
            if walk.accept(s) {
                frontier.push(s);
                proof {
                    assert forall|n: NodeId| walk.admitted().contains(n)
                        <==> frontier@.contains(n) by {
                        push_contains(was, s, n);
                        push_contains(lined, s, n);
                    }
                }
            }
            proof {
                walk.walk_facts();
                assert(within ==> good@(seeds@[i as int]));
            }
            if walk.truncated() {
                return ;
            }
            i += 1;
        }
        // One buffer for the whole walk: children of a leaf is the common case
        // and the common case should not allocate.
        let mut buf: Vec<NodeId> = Vec::new();
        loop
            invariant
                self.wf(),
                start.wf(),
                self.agrees(&start),
                start.indexed() ==> self.indexed(),
                walk.wf(),
                !walk.is_full(),
                walk.cap() == cap,
                limit == walk.limit_spec(),
                within ==> forall|n: NodeId| #[trigger]
                    walk.offered().contains(n) ==> good@(n),
                start == *old(self),
                cap == old(walk).cap(),
                within == start.stays_within(level, seeds@, good@),
                forall|n: NodeId| #[trigger]
                    frontier@.contains(n) ==> walk.admitted().contains(n),
                start.lists_are_short() ==> forall|p: NodeId, k: NodeId|
                    walk.admitted().contains(p) && !frontier@.contains(p)
                        && #[trigger] start.lists_below(level, p, k) ==> walk.admitted().contains(k),
                forall|j: int|
                    0 <= j < seeds@.len() ==> walk.admitted().contains(#[trigger] seeds@[j]),
                starts_at(walk, seeds@),
            ensures
                frontier@.len() == 0,
            decreases cap - walk.admitted().len(), frontier.len(),
        {
            let ghost lined = frontier@;
            let k: NodeId = match frontier.pop() {
                Some(k) => k,
                None => {
                    break;
                },
            };
            let ghost popped = frontier@;
            let ghost had = walk.admitted();
            proof {
                assert(lined =~= popped.push(k));
                push_contains(popped, k, k);
                assert(walk.admitted().contains(k));
                assert forall|n: NodeId| #[trigger] popped.contains(n) implies
                    walk.admitted().contains(n) by {
                    push_contains(popped, k, n);
                }
                walk.walk_facts();
            }
            buf.clear();
            let ghost prior = *self;
            self.children_at(level, k, limit, &mut buf);
            let ghost kids = start.mem_kids(level, k) + start.base_some(
                level,
                k,
                limit as nat,
            );
            proof {
                prior.agreeing_forests_list_alike(&start);
                Self::agreement_chains(&start, &prior, self);
                assert(prior.mem_kids(level, k) == start.mem_kids(level, k));
                assert(prior.base_some(level, k, limit as nat) == start.base_some(
                    level,
                    k,
                    limit as nat,
                ));
                assert(buf@ =~= kids);
                assert(start.lists_limited() ==> start.base_some(level, k, limit as nat) == first(
                    start.base_kids(level, k),
                    limit as nat,
                ));
                assert forall|j: int|
                    start.lists_limited() && 0 <= j < kids.len() implies start.lists_below(
                    level,
                    k,
                    #[trigger] kids[j],
                ) by {
                    let m = start.mem_kids(level, k);
                    if j < m.len() {
                        assert(m.contains(m[j]));
                    } else {
                        let b = start.base_kids(level, k);
                        assert(b[j - m.len()] == kids[j]);
                        assert(b.contains(kids[j]));
                    }
                }
            }
            let mut j: usize = 0;
            while j < buf.len()
                invariant
                    j <= buf.len(),
                    buf@ == kids,
                    walk.wf(),
                    !walk.is_full(),
                    walk.cap() == cap,
                    limit == walk.limit_spec(),
                    had.len() <= walk.admitted().len(),
                    starts_at(walk, seeds@),
                    walk.admitted().len() == had.len() ==> frontier@ == popped,
                    forall|n: NodeId| #[trigger] had.contains(n) ==> walk.admitted().contains(n),
                    forall|n: NodeId| #[trigger]
                        walk.admitted().contains(n) ==> had.contains(n) || frontier@.contains(n),
                    forall|n: NodeId| #[trigger]
                        frontier@.contains(n) ==> walk.admitted().contains(n),
                    forall|n: NodeId| #[trigger] popped.contains(n) ==> frontier@.contains(n),
                    forall|m: int|
                        0 <= m < j ==> walk.admitted().contains(#[trigger] kids[m]),
                    start.lists_limited() ==> forall|m: int|
                        0 <= m < kids.len() ==> start.lists_below(level, k, #[trigger] kids[m]),
                    within ==> start.lists_limited(),
                    within ==> good@(k),
                    within ==> forall|n: NodeId| #[trigger]
                        walk.offered().contains(n) ==> good@(n),
                    start == *old(self),
                    cap == old(walk).cap(),
                    within == start.stays_within(level, seeds@, good@),
                    self.wf(),
                    self.agrees(&start),
                    start.indexed() ==> self.indexed(),
                decreases buf.len() - j,
            {
                let c: NodeId = buf[j];
                let ghost was = walk.admitted();
                let ghost queue = frontier@;
                proof {
                    walk.walk_facts();
                    assert(start.lists_limited() ==> start.lists_below(level, k, kids[j as int]));
                }
                if walk.accept(c) {
                    frontier.push(c);
                    proof {
                        assert forall|n: NodeId|
                            (#[trigger] walk.admitted().contains(n) <==> was.contains(n) || n == c)
                                && (frontier@.contains(n) <==> queue.contains(n) || n == c) by {
                            push_contains(was, c, n);
                            push_contains(queue, c, n);
                        }
                        assert forall|n: NodeId| #[trigger] frontier@.contains(n) implies
                            walk.admitted().contains(n) by {
                            push_contains(queue, c, n);
                            push_contains(was, c, n);
                        }
                        assert forall|n: NodeId| #[trigger] popped.contains(n) implies
                            frontier@.contains(n) by {
                            push_contains(queue, c, n);
                        }
                    }
                }
                proof {
                    walk.walk_facts();
                }
                if walk.truncated() {
                    return ;
                }
                j += 1;
            }
            proof {
                walk.walk_facts();
                if start.lists_are_short() {
                    let b = start.base_kids(level, k);
                    let m = start.mem_kids(level, k);
                    // More than the cap from the base alone would have
                    // overflowed the walk, so the base gave everything.
                    if b.len() > limit {
                        let given = b.take(limit as int);
                        assert(given.no_duplicates());
                        assert forall|n: int| 0 <= n < given.len() implies walk.admitted().contains(
                            #[trigger] given[n],
                        ) by {
                            assert(kids[m.len() + n] == given[n]);
                        }
                        distinct_members_fit(given, walk.admitted());
                        assert(false);
                    }
                    assert forall|p: NodeId, c: NodeId|
                        walk.admitted().contains(p) && !frontier@.contains(p)
                            && #[trigger] start.lists_below(
                            level,
                            p,
                            c,
                        ) implies walk.admitted().contains(c) by {
                        if p == k {
                            if m.contains(c) {
                                assert(kids[m.index_of(c)] == c);
                            } else {
                                assert(kids[m.len() + b.index_of(c)] == c);
                            }
                        } else {
                            assert(had.contains(p));
                            assert(!popped.contains(p));
                            push_contains(popped, k, p);
                            assert(!lined.contains(p));
                            assert(had.contains(c));
                        }
                    }
                }
            }
        }
        proof {
            walk.walk_facts();
        }
    }

    /// A node with a link is listed below a smaller node of its component, and
    /// what is listed below a node is in its component.
    proof fn listing_covers_the_level(&self, level: Option<ScopeId>)
        requires
            self.wf(),
            self.consistent(),
            self.members_covered(),
            self.member_index,
        ensures
            forall|p: NodeId, k: NodeId| #[trigger]
                self.lists_below(level, p, k) ==> p < k && self.root_at(level, k) != k
                    && self.root_at(level, p) == self.root_at(level, k),
            forall|x: NodeId|
                (#[trigger] self.root_at(level, x)) != x ==> exists|p: NodeId| #[trigger]
                    self.lists_below(level, p, x),
    {
        self.consistent_maps();
        self.mem.links_descend();
        self.mem.edges_cover();
        let mem = self.mem_at(level);
        let base = self.base_at(level);
        assert(descending(mem) && resolved(base) && above(mem, base)) by {
            if let Some(s) = level {
                assert(descending(self.mem_overlay(s)));
                assert(resolved(self.base_overlay(s)));
                assert(above(self.mem_overlay(s), self.base_overlay(s)));
            }
        }
        let edges = match level {
            None => self.mem.shared_edges(),
            Some(s) => self.mem.overlay_edges(s),
        };
        assert(edges is Some && edges_index(mem, edges->Some_0));
        let kids = |p: NodeId| self.base_kids(level, p);
        assert(kids_index(base, kids) || self.base is None) by {
            if let Some(b) = self.base {
                if let Some(s) = level {
                    assert(kids_index(b.overlay_links(s), |p: NodeId| b.overlay_kids(s, p)));
                    assert((|p: NodeId| b.overlay_kids(s, p)) =~= kids);
                } else {
                    assert((|p: NodeId| b.shared_kids(p)) =~= kids);
                }
            }
        }
        assert forall|p: NodeId, k: NodeId| #[trigger] self.lists_below(level, p, k) implies p < k
            && self.root_at(level, k) != k && self.root_at(level, p) == self.root_at(
            level,
            k,
        ) by {
            composition_is_exact(mem, base, k);
            composition_is_exact(mem, base, p);
            if self.mem_kids(level, p).contains(k) {
                assert(children_in(edges->Some_0, p).contains(k));
                root_is_a_root(mem, p);
                root_is_a_root(mem, k);
                assert(!base.contains_key(root_of(mem, k)));
                if mem.contains_key(p) {
                    assert(!base.contains_key(p));
                }
            } else {
                assert(kids(p).contains(k));
            }
        }
        assert forall|x: NodeId| (#[trigger] self.root_at(level, x)) != x implies exists|
            p: NodeId,
        | #[trigger]
            self.lists_below(level, p, x) by {
            composition_is_exact(mem, base, x);
            if mem.contains_key(x) {
                let p = choose|p: NodeId| #[trigger] children_in(edges->Some_0, p).contains(x);
                assert(self.lists_below(level, p, x));
            } else {
                let p = choose|p: NodeId| #[trigger] kids(p).contains(x);
                assert(self.lists_below(level, p, x));
            }
        }
    }

    /// A set of nodes that holds a component's root and is closed downward
    /// holds the component.
    proof fn closed_sets_hold_components(
        &self,
        level: Option<ScopeId>,
        nodes: Seq<NodeId>,
        top: NodeId,
        x: NodeId,
    )
        requires
            self.wf(),
            self.consistent(),
            self.members_covered(),
            self.member_index,
            nodes.contains(top),
            forall|p: NodeId, k: NodeId|
                nodes.contains(p) && #[trigger] self.lists_below(level, p, k) ==> nodes.contains(k),
            self.root_at(level, x) == top,
        ensures
            nodes.contains(x),
        decreases x,
    {
        if self.root_at(level, x) != x {
            self.listing_covers_the_level(level);
            let p = choose|p: NodeId| #[trigger] self.lists_below(level, p, x);
            self.closed_sets_hold_components(level, nodes, top, p);
        }
    }

    proof fn covered_lists_are_short(&self)
        requires
            self.members_covered(),
        ensures
            self.lists_are_short(),
    {
        assert forall|level: Option<ScopeId>, p: NodeId|
            (#[trigger] self.base_kids(level, p)).no_duplicates() && self.base_kids(level, p).len()
                < usize::MAX by {
            if let Some(b) = self.base {
                if let Some(s) = level {
                    let kids = |p: NodeId| b.overlay_kids(s, p);
                    assert(kids_index(b.overlay_links(s), kids));
                    assert(kids(p).no_duplicates() && kids(p).len() < usize::MAX);
                } else {
                    let kids = |p: NodeId| b.shared_kids(p);
                    assert(kids_index(b.shared_links(), kids));
                    assert(kids(p).no_duplicates() && kids(p).len() < usize::MAX);
                }
            }
        }
    }

    /// `listed` are members of `node`'s component as `scope` sees it: all of
    /// them, or `cap` where there are more.
    pub open spec fn lists_members(
        &self,
        scope: ScopeId,
        node: NodeId,
        cap: usize,
        listed: Seq<NodeId>,
        truncated: bool,
    ) -> bool {
        &&& listed.no_duplicates()
        &&& listed.len() <= cap
        &&& cap > 0 ==> listed.len() > 0 && listed[0] == self.root_in(scope, node)
        &&& forall|x: NodeId| #[trigger]
            listed.contains(x) ==> self.root_in(scope, x) == self.root_in(scope, node)
        &&& !truncated ==> forall|x: NodeId|
            (#[trigger] self.root_in(scope, x)) == self.root_in(scope, node) ==> listed.contains(x)
        &&& truncated ==> listed.len() == cap && exists|x: NodeId|
            (#[trigger] self.root_in(scope, x)) == self.root_in(scope, node) && !listed.contains(x)
    }

    /// `m` lists `node`'s component as `scope` sees it: all of it, or `cap`
    /// members of it where there are more.
    pub open spec fn lists_component(
        &self,
        scope: ScopeId,
        node: NodeId,
        cap: usize,
        m: Members,
    ) -> bool {
        self.lists_members(scope, node, cap, m.listed(), m is Truncated)
    }

    /// The component of `node` as `scope` sees it.
    pub open spec fn component(&self, scope: ScopeId, node: NodeId) -> Set<NodeId> {
        Set::new(|x: NodeId| self.root_in(scope, x) == self.root_in(scope, node))
    }

    /// **A member list is complete exactly when the component fits**: then it
    /// lists the component, each node once; otherwise it holds exactly `cap`
    /// nodes of it.
    pub proof fn a_list_is_complete_when_the_component_fits(
        &self,
        scope: ScopeId,
        node: NodeId,
        cap: usize,
        m: Members,
    )
        requires
            self.lists_component(scope, node, cap, m),
        ensures
            ({
                let c = self.component(scope, node);
                &&& m is Complete <==> c.finite() && c.len() <= cap
                &&& m is Complete ==> m.listed().to_set() == c && m.listed().no_duplicates()
                    && m.listed().len() == c.len()
                &&& m is Truncated ==> m.listed().len() == cap && m.listed().no_duplicates()
                    && m.listed().to_set().subset_of(c)
            }),
    {
        let c = self.component(scope, node);
        let listed = m.listed();
        let set = listed.to_set();
        listed.unique_seq_to_set();
        assert(set.finite());
        assert forall|x: NodeId| set.contains(x) implies c.contains(x) by {
            assert(listed.contains(x));
        }
        if m is Complete {
            assert forall|x: NodeId| c.contains(x) implies set.contains(x) by {
                assert(self.root_in(scope, x) == self.root_in(scope, node));
                assert(listed.contains(x));
            }
            assert(set =~= c);
        } else {
            let extra = choose|x: NodeId|
                (#[trigger] self.root_in(scope, x)) == self.root_in(scope, node)
                    && !listed.contains(x);
            if c.finite() {
                assert(c.contains(extra) && !set.contains(extra));
                assert(set.insert(extra).subset_of(c));
                vstd::set_lib::lemma_len_subset(set.insert(extra), c);
            }
        }
    }

    /// Everyone in `node`'s component as `scope` sees it, up to `cap`.
    ///
    /// `None` when the state cannot answer: the memtable was built without
    /// tracking, or a run in the base was written without the member index.
    /// That is deliberately not "an empty component": a caller cannot tell a
    /// singleton from an unindexed run, so the unanswerable case has its own
    /// value rather than a plausible-looking wrong one.
    ///
    /// The returned set **includes `node` and the component root**. Order is
    /// parent-tree order, which is arbitrary; callers wanting it sorted sort.
    ///
    /// # Two levels, for a reason
    ///
    /// In a tenant scope the overlay's elements are *shared roots*, not nodes,
    /// so walking the overlay down from `scope_root` yields the set of shared
    /// components this scope has glued together, and each of those still has
    /// to be expanded through the shared tree to reach actual members.
    pub fn members(&mut self, scope: ScopeId, node: NodeId, cap: usize) -> (r: Option<Members>)
        requires
            old(self).wf(),
        ensures
            final(self).wf(),
            final(self).agrees(old(self)),
            old(self).indexed() ==> final(self).indexed(),
            (r is Some) == old(self).answers_members(),
            r matches Some(m) ==> (old(self).consistent() && old(self).members_covered() ==> old(
                self,
            ).lists_component(scope, node, cap, m)),
    {
        if !self.member_index {
            return None;
        }
        if let Some(b) = &self.base {
            if !b.has_member_index() {
                return None;
            }
        }
        let ghost start = *self;
        let ghost sure = start.consistent() && start.members_covered();
        let shared: NodeId = self.shared_root(node, false);
        let ghost one = *self;
        let ghost top = start.root_in(scope, node);
        let ghost good = |x: NodeId| start.root_in(scope, x) == top;
        proof {
            one.agreeing_forests_answer_alike(&start);
            one.agreeing_forests_list_alike(&start);
            if sure {
                start.listing_covers_the_level(None);
                start.covered_lists_are_short();
                start.consistent_maps();
                composition_is_exact(start.mem_shared(), start.base_shared(), node);
                assert(start.shared(shared) == shared);
                assert forall|p: NodeId, k: NodeId|
                    good(p) && #[trigger] start.lists_below(None, p, k) implies good(k) by {
                    assert(start.root_at(None, p) == start.root_at(None, k));
                }
            }
        }
        let mut walk: Walk = Walk::new(cap);
        if scope == GLOBAL_SCOPE {
            let seeds: Vec<NodeId> = vec![shared];
            self.expand(&mut walk, None, &seeds, Ghost(good));
            proof {
                Self::agreement_chains(&start, &one, self);
                if sure {
                    Self::lists_below_alike(&one, &start, None);
                    assert(good(seeds@[0]));
                    walk.walk_facts();
                    if !walk.is_full() {
                        assert(walk.admitted().contains(seeds@[0]));
                        assert forall|p: NodeId, k: NodeId|
                            walk.admitted().contains(p) && #[trigger] start.lists_below(
                                None,
                                p,
                                k,
                            ) implies walk.admitted().contains(k) by {
                            assert(one.lists_below(None, p, k));
                        }
                        assert forall|x: NodeId| good(x) implies #[trigger] walk.admitted().contains(
                            x,
                        ) by {
                            start.closed_sets_hold_components(None, walk.admitted(), shared, x);
                        }
                    } else {
                        let n = choose|n: NodeId|
                            walk.offered().contains(n) && !(#[trigger] walk.admitted().contains(
                                n,
                            ));
                        assert(good(n));
                    }
                }
            }
            Some(walk.finish(false))
        } else {
            let root: NodeId = self.overlay_root(scope, shared, false);
            let ghost two = *self;
            // Bounded by `cap + 1` because every overlay element is itself a
            // member: more than `cap` of them already proves truncation, and
            // stopping there keeps a hub component from walking the whole
            // overlay before the cap is ever consulted.
            let mut gathered: Walk = Walk::new(cap.saturating_add(1));
            let start_at: Vec<NodeId> = vec![root];
            let ghost linked_to = |x: NodeId| start.overlay(scope, x) == root;
            proof {
                two.agreeing_forests_answer_alike(&one);
                two.agreeing_forests_list_alike(&one);
                Self::agreement_chains(&start, &one, &two);
            }
            self.expand(&mut gathered, Some(scope), &start_at, Ghost(linked_to));
            let ghost three = *self;
            proof {
                three.agreeing_forests_answer_alike(&two);
                three.agreeing_forests_list_alike(&two);
                Self::agreement_chains(&start, &two, &three);
                gathered.walk_facts();
                assert(gathered.admitted().len() > 0 || gathered.is_full());
            }
            let seeds: &Vec<NodeId> = gathered.admitted_nodes();
            self.expand(&mut walk, None, seeds, Ghost(good));
            let overflowed: bool = gathered.truncated();
            proof {
                Self::agreement_chains(&start, &three, self);
                walk.walk_facts();
                if sure {
                    Self::lists_below_alike(&two, &start, Some(scope));
                    Self::lists_below_alike(&three, &start, None);
                    start.listing_covers_the_level(Some(scope));
                    assert(linked_to(start_at@[0])) by {
                        composition_is_exact(
                            start.mem_overlay(scope),
                            start.base_overlay(scope),
                            shared,
                        );
                    }
                    assert forall|p: NodeId, k: NodeId|
                        linked_to(p) && #[trigger] two.lists_below(
                            Some(scope),
                            p,
                            k,
                        ) implies linked_to(k) by {
                        assert(start.lists_below(Some(scope), p, k));
                        assert(start.root_at(Some(scope), p) == start.root_at(Some(scope), k));
                    }
                    assert forall|i: int| 0 <= i < seeds@.len() implies good(
                        #[trigger] seeds@[i],
                    ) by {
                        assert(gathered.admitted().contains(seeds@[i]));
                        assert(gathered.offered().contains(seeds@[i]));
                        assert(linked_to(seeds@[i]));
                        start.overlay_elements_are_members(scope, node, seeds@[i]);
                    }
                    if !gathered.is_full() {
                        assert(gathered.admitted().contains(start_at@[0]));
                        assert forall|p: NodeId, k: NodeId|
                            gathered.admitted().contains(p) && #[trigger] start.lists_below(
                                Some(scope),
                                p,
                                k,
                            ) implies gathered.admitted().contains(k) by {
                            assert(two.lists_below(Some(scope), p, k));
                        }
                    }
                    if !walk.is_full() {
                        assert forall|p: NodeId, k: NodeId|
                            walk.admitted().contains(p) && #[trigger] start.lists_below(
                                None,
                                p,
                                k,
                            ) implies walk.admitted().contains(k) by {
                            assert(three.lists_below(None, p, k));
                        }
                    }
                }
            }
            let m: Members = walk.finish(overflowed);
            proof {
                if sure {
                    start.scoped_walk_is_the_component(
                        scope,
                        node,
                        cap,
                        &gathered,
                        &walk,
                        m,
                    );
                }
            }
            Some(m)
        }
    }

    proof fn lists_below_alike(a: &ScopedForest, b: &ScopedForest, level: Option<ScopeId>)
        requires
            a.agrees(b),
        ensures
            forall|p: NodeId, k: NodeId| #[trigger]
                a.lists_below(level, p, k) == b.lists_below(level, p, k),
            a.lists_are_short() == b.lists_are_short(),
    {
        a.agreeing_forests_list_alike(b);
        assert forall|p: NodeId, k: NodeId| #[trigger]
            a.lists_below(level, p, k) == b.lists_below(level, p, k) by {
            assert(a.mem_kids(level, p) == b.mem_kids(level, p));
            assert(a.base_kids(level, p) == b.base_kids(level, p));
        }
        assert forall|l: Option<ScopeId>, p: NodeId| a.base_kids(l, p) == b.base_kids(
            l,
            p,
        ) by {}
        assert forall|l: Option<ScopeId>, p: NodeId, limit: nat|
            a.lists_limited() implies #[trigger] b.base_some(l, p, limit) == first(
            b.base_kids(l, p),
            limit,
        ) by {
            assert(a.base_some(l, p, limit) == b.base_some(l, p, limit));
            assert(a.base_kids(l, p) == b.base_kids(l, p));
        }
        assert forall|l: Option<ScopeId>, p: NodeId, limit: nat|
            b.lists_limited() implies #[trigger] a.base_some(l, p, limit) == first(
            a.base_kids(l, p),
            limit,
        ) by {
            assert(a.base_some(l, p, limit) == b.base_some(l, p, limit));
            assert(a.base_kids(l, p) == b.base_kids(l, p));
        }
        if a.lists_are_short() {
            assert forall|l: Option<ScopeId>, p: NodeId|
                (#[trigger] b.base_kids(l, p)).no_duplicates() && b.base_kids(l, p).len()
                    < usize::MAX by {
                assert(a.base_kids(l, p) == b.base_kids(l, p));
            }
        }
        if b.lists_are_short() {
            assert forall|l: Option<ScopeId>, p: NodeId|
                (#[trigger] a.base_kids(l, p)).no_duplicates() && a.base_kids(l, p).len()
                    < usize::MAX by {
                assert(a.base_kids(l, p) == b.base_kids(l, p));
            }
        }
    }

    /// An overlay element below a scope's root is a member of its component.
    proof fn overlay_elements_are_members(&self, scope: ScopeId, node: NodeId, n: NodeId)
        requires
            self.wf(),
            self.consistent(),
            scope != GLOBAL_SCOPE,
            self.overlay(scope, n) == self.root_in(scope, node),
        ensures
            self.root_in(scope, n) == self.root_in(scope, node),
    {
        self.consistent_maps();
        assert(self.elements_follow(scope));
        let r = self.shared(node);
        composition_is_exact(self.mem_shared(), self.base_shared(), node);
        if self.overlay(scope, n) == n && self.overlay(scope, r) != r {
            assert(self.overlay(scope, self.shared(self.overlay(scope, r))) == n);
        }
    }

    /// The overlay elements below a scope's root, expanded through the shared
    /// tier, are exactly the scope's component.
    proof fn scoped_walk_is_the_component(
        &self,
        scope: ScopeId,
        node: NodeId,
        cap: usize,
        gathered: &Walk,
        walk: &Walk,
        m: Members,
    )
        requires
            self.wf(),
            self.consistent(),
            self.members_covered(),
            self.member_index,
            scope != GLOBAL_SCOPE,
            gathered.wf(),
            walk.wf(),
            walk.cap() == cap,
            gathered.cap() == (if cap < usize::MAX {
                (cap + 1) as usize
            } else {
                cap
            }),
            forall|n: NodeId| #[trigger]
                gathered.offered().contains(n) ==> self.overlay(scope, n) == self.root_in(
                    scope,
                    node,
                ),
            !gathered.is_full() ==> gathered.admitted().contains(self.root_in(scope, node)),
            !gathered.is_full() ==> forall|p: NodeId, k: NodeId|
                gathered.admitted().contains(p) && #[trigger] self.lists_below(Some(scope), p, k)
                    ==> gathered.admitted().contains(k),
            forall|n: NodeId| #[trigger]
                walk.offered().contains(n) ==> self.root_in(scope, n) == self.root_in(scope, node),
            !walk.is_full() ==> forall|i: int|
                0 <= i < gathered.admitted().len() ==> walk.admitted().contains(
                    #[trigger] gathered.admitted()[i],
                ),
            !walk.is_full() ==> forall|p: NodeId, k: NodeId|
                walk.admitted().contains(p) && #[trigger] self.lists_below(None, p, k)
                    ==> walk.admitted().contains(k),
            starts_at(gathered, seq![self.root_in(scope, node)]),
            starts_at(walk, gathered.admitted()),
            m.listed() == walk.admitted(),
            m is Truncated == (walk.is_full() || gathered.is_full()),
        ensures
            self.lists_component(scope, node, cap, m),
    {
        gathered.walk_facts();
        walk.walk_facts();
        let top = self.root_in(scope, node);
        let seeds = gathered.admitted();
        if walk.is_full() {
            let n = choose|n: NodeId|
                walk.offered().contains(n) && !(#[trigger] walk.admitted().contains(n));
            assert(self.root_in(scope, n) == top);
        } else if gathered.is_full() {
            let n = choose|n: NodeId| gathered.offered().contains(n) && !(#[trigger] seeds.contains(n));
            distinct_members_fit(seeds, walk.admitted());
            self.overlay_elements_are_members(scope, node, n);
            assert(!walk.admitted().contains(n)) by {
                if walk.admitted().contains(n) {
                    let more = seeds.push(n);
                    assert(more.no_duplicates());
                    assert forall|i: int| 0 <= i < more.len() implies walk.admitted().contains(
                        #[trigger] more[i],
                    ) by {
                        if i < seeds.len() {
                            assert(more[i] == seeds[i]);
                        }
                    }
                    distinct_members_fit(more, walk.admitted());
                }
            }
            assert(self.root_in(scope, n) == top);
        } else {
            assert forall|x: NodeId| (#[trigger] self.root_in(scope, x))
                == top implies walk.admitted().contains(x) by {
                let r = self.shared(x);
                self.closed_sets_hold_components(Some(scope), seeds, top, r);
                let i = seeds.index_of(r);
                assert(walk.admitted().contains(seeds[i]));
                self.closed_sets_hold_components(None, walk.admitted(), r, x);
            }
        }
    }
}

#[derive(Debug, Clone, Copy)]
pub struct ForestStats {
    /// Whether `members` can answer: memtable tracking on *and* every run in
    /// the base carrying the index.
    pub members_available: bool,
    pub events_applied: u64,
    pub global_merges: u64,
    pub global_links: u64,
    pub scope_links: u64,
    pub active_scopes: u64,
    pub merge_fixups: u64,
    /// Pairs served from the mapped base (0 when running all-RAM).
    pub base_shared_pairs: u64,
    pub base_overlay_pairs: u64,
    pub base_mapped_bytes: u64,
    /// Heap held by the base's in-RAM lookup indexes.
    pub base_index_bytes: u64,
    pub base_sequence: u64,
    /// Times the memtable has been folded into a fresh base. If this stops
    /// advancing while `global_links` climbs, heap use is unbounded.
    pub folds: u64,
}

impl ScopedForest {
    /// What the attached base reports of itself.
    pub closed spec fn base_stats_view(&self) -> Option<BaseStats> {
        match self.base {
            Some(b) => Some(b.stats_view()),
            None => None,
        }
    }

    /// Whether memtables track merge edges downward.
    pub closed spec fn tracking(&self) -> bool {
        self.member_index
    }

    /// Merge notifications that joined two overlay components.
    pub closed spec fn fixup_count(&self) -> u64 {
        self.fixups
    }

    /// Links held in the heap: the shared tier's and every overlay's.
    pub open spec fn mem_link_count(&self) -> nat {
        self.mem_shared().dom().len() + self.overlay_links_below((u32::MAX + 1) as nat)
    }

    /// Links held in the heap by the overlays of the scopes below `n`.
    pub open spec fn overlay_links_below(&self, n: nat) -> nat
        decreases n,
    {
        if n == 0 {
            0
        } else {
            self.overlay_links_below((n - 1) as nat) + self.mem_overlay(
                (n - 1) as ScopeId,
            ).dom().len()
        }
    }

    proof fn overlay_links_are_the_memtables(&self, n: nat)
        requires
            n <= u32::MAX + 1,
        ensures
            self.overlay_links_below(n) == super::memtable::overlay_links_below(
                self.mem.overlays(),
                n,
            ),
        decreases n,
    {
        if n > 0 {
            self.overlay_links_are_the_memtables((n - 1) as nat);
        }
    }

    /// **A fold empties the heap**: nothing is linked in a fresh memtable.
    pub proof fn a_fresh_memtable_holds_no_link(&self)
        requires
            self.mem_is_fresh(),
        ensures
            self.mem_link_count() == 0,
    {
        self.overlay_links_are_the_memtables((u32::MAX + 1) as nat);
        super::memtable::no_overlays_no_links((u32::MAX + 1) as nat);
    }

    /// Merges the memtable performed in the shared tier.
    pub closed spec fn merge_count(&self) -> u64 {
        self.mem.merge_count()
    }

    /// Track merge edges downward so [`ScopedForest::members`] can answer.
    ///
    /// Consuming rather than a setter, and applied before anything is ingested:
    /// the index is built as merges happen, so turning it on later would leave
    /// a hole exactly the size of everything already applied.
    pub fn tracking_members(self) -> (f: ScopedForest)
        requires
            self.wf(),
            self.mem_shared().dom().len() == 0,
        ensures
            f.wf(),
            f.indexed(),
            f.tracking(),
            f.mem_is_fresh(),
            f.has_base() == self.has_base(),
            f.base_lists_members() == self.base_lists_members(),
            f.base_members_covered() == self.base_members_covered(),
            f.base_shared() == self.base_shared(),
            forall|s: ScopeId| #[trigger] f.base_overlay(s) == self.base_overlay(s),
            forall|r: NodeId| #[trigger] f.base_registered(r) == self.base_registered(r),
            f.base_stats_view() == self.base_stats_view(),
            f.event_count() == self.event_count(),
            f.scope_link_count() == self.scope_link_count(),
            f.fixup_count() == self.fixup_count(),
            f.fold_count() == self.fold_count(),
            self.consistent() ==> f.consistent(),
            self.mem_is_fresh() ==> forall|s: ScopeId, x: NodeId| #[trigger]
                f.root_in(s, x) == self.root_in(s, x),
    {
        let f = ScopedForest {
            base: self.base,
            mem: Memtable::new(true),
            member_index: true,
            events_applied: self.events_applied,
            scope_links: self.scope_links,
            fixups: self.fixups,
            folds: self.folds,
        };
        proof {
            if self.consistent() {
                f.bare_base_is_consistent();
            }
            if self.mem_is_fresh() {
                assert forall|x: NodeId| #[trigger] f.shared(x) == self.shared(x) by {}
                assert forall|s: ScopeId, x: NodeId| #[trigger] f.overlay(s, x) == self.overlay(
                    s,
                    x,
                ) by {}
                assert forall|s: ScopeId, x: NodeId| #[trigger] f.root_in(s, x) == self.root_in(
                    s,
                    x,
                ) by {
                    assert(f.overlay(s, f.shared(x)) == self.overlay(s, self.shared(x)));
                }
            }
        }
        f
    }

    /// Whether this forest's memtable can answer downward walks.
    pub fn tracks_members(&self) -> (r: bool)
        ensures
            r == self.tracking(),
    {
        self.member_index
    }

    /// Whether [`ScopedForest::members`] can answer right now: both halves,
    /// memtable and base. Worth surfacing because the base half can go away
    /// underneath a running worker: a fold or a tiered merge that forgets the
    /// flag writes a run that cannot answer.
    pub fn members_available(&self) -> (r: bool)
        requires
            self.wf(),
        ensures
            r == self.answers_members(),
    {
        if !self.member_index {
            return false;
        }
        match &self.base {
            Some(b) => b.has_member_index(),
            None => true,
        }
    }

    /// Stats for the attached base, if any.
    pub fn base_stats(&self) -> (r: Option<BaseStats>)
        requires
            self.wf(),
        ensures
            r == self.base_stats_view(),
    {
        match &self.base {
            Some(b) => Some(b.stats()),
            None => None,
        }
    }

    /// Links held in the heap right now: what a fold would reclaim.
    pub fn memtable_links(&mut self) -> (n: u64)
        requires
            old(self).wf(),
        ensures
            n == capped(old(self).mem_link_count()),
            final(self).wf(),
            final(self).agrees(old(self)),
            old(self).indexed() ==> final(self).indexed(),
    {
        proof {
            self.overlay_links_are_the_memtables((u32::MAX + 1) as nat);
        }
        self.mem.links()
    }

    pub fn stats(&self) -> (s: ForestStats)
        requires
            self.wf(),
        ensures
            s.members_available == self.answers_members(),
            s.events_applied == self.event_count(),
            s.global_merges == self.merge_count(),
            s.global_links == self.mem_shared().dom().len(),
            s.scope_links == self.scope_link_count(),
            s.active_scopes == self.mem_scopes().len(),
            s.merge_fixups == self.fixup_count(),
            ({
                let base = match self.base_stats_view() {
                    Some(b) => b,
                    None => BaseStats::none(),
                };
                &&& s.base_shared_pairs == base.shared_pairs
                &&& s.base_overlay_pairs == base.overlay_pairs
                &&& s.base_mapped_bytes == base.mapped_bytes
                &&& s.base_index_bytes == base.index_bytes
                &&& s.base_sequence == base.sequence
            }),
            s.folds == self.fold_count(),
    {
        let base: BaseStats = match self.base_stats() {
            Some(b) => b,
            None => BaseStats::default(),
        };
        ForestStats {
            members_available: self.members_available(),
            events_applied: self.events_applied,
            global_merges: self.mem.merges(),
            global_links: self.mem.shared_len() as u64,
            scope_links: self.scope_links,
            active_scopes: self.mem.overlay_count() as u64,
            merge_fixups: self.fixups,
            base_shared_pairs: base.shared_pairs,
            base_overlay_pairs: base.overlay_pairs,
            base_mapped_bytes: base.mapped_bytes,
            base_index_bytes: base.index_bytes,
            base_sequence: base.sequence,
            folds: self.folds,
        }
    }
}

/// Distinct nodes that all occur in a list are no more than the list is long.
proof fn distinct_members_fit(a: Seq<NodeId>, b: Seq<NodeId>)
    requires
        a.no_duplicates(),
        forall|i: int| 0 <= i < a.len() ==> b.contains(#[trigger] a[i]),
    ensures
        a.len() <= b.len(),
{
    a.unique_seq_to_set();
    b.lemma_cardinality_of_set();
    assert(a.to_set().subset_of(b.to_set())) by {
        assert forall|x: NodeId| a.to_set().contains(x) implies b.to_set().contains(x) by {
            let i = a.index_of(x);
            assert(b.contains(a[i]));
        }
    }
    vstd::set_lib::lemma_len_subset(a.to_set(), b.to_set());
}

/// Appends the scopes of `more` that `scopes` lacks.
fn extend_distinct(scopes: &mut Vec<ScopeId>, more: &Vec<ScopeId>)
    requires
        old(scopes)@.no_duplicates(),
    ensures
        final(scopes)@.no_duplicates(),
        final(scopes)@.to_set() == old(scopes)@.to_set().union(more@.to_set()),
{
    let mut i: usize = 0;
    while i < more.len()
        invariant
            i <= more.len(),
            scopes@.no_duplicates(),
            scopes@.to_set() == old(scopes)@.to_set().union(more@.take(i as int).to_set()),
        decreases more.len() - i,
    {
        let ghost before = scopes@;
        let ghost seen = more@.take(i as int);
        let scope: ScopeId = more[i];
        if !super::types::contains_scope(scopes, scope) {
            scopes.push(scope);
        }
        proof {
            let next = more@.take(i + 1);
            assert(next =~= seen.push(scope));
            seen.lemma_push_to_set_commute(scope);
            before.lemma_push_to_set_commute(scope);
            assert(before.contains(scope) ==> before.to_set().contains(scope));
            assert(scopes@.to_set() =~= old(scopes)@.to_set().union(next.to_set()));
        }
        i += 1;
    }
    proof {
        assert(more@.take(i as int) =~= more@);
    }
}

// --- what is registered in a stream ----------------------------------------------

impl ScopedForest {
    /// The overlay pair of `k` in `scope` is streamed, and one of its ends is
    /// in the shared component of `root`.
    pub open spec fn streams_at(
        &self,
        whole: bool,
        scope: ScopeId,
        k: NodeId,
        root: NodeId,
    ) -> bool {
        &&& self.scopes_at(whole).contains(scope)
        &&& self.keys_at(Some(scope), whole).contains(k)
        &&& self.touches_at(scope, k, root)
    }

    /// The overlay pair of `k` has an end in the shared component of `root`.
    pub open spec fn touches_at(&self, scope: ScopeId, k: NodeId, root: NodeId) -> bool {
        &&& self.overlay(scope, k) != k
        &&& (self.shared(k) == root || self.shared(self.overlay(scope, k)) == root)
    }

    proof fn level_registers(&self, level: Option<ScopeId>, keys: Seq<NodeId>, e: (NodeId, ScopeId))
        ensures
            registry_events(self.level_events(level, keys)).contains(e) <==> level == Some(e.1)
                && exists|i: int|
                0 <= i < keys.len() && self.touches_at(e.1, #[trigger] keys[i], e.0),
        decreases keys.len(),
    {
        if keys.len() > 0 {
            let front = keys.drop_last();
            let k = keys.last();
            let a = self.level_events(level, front);
            let b = self.key_events(level, k);
            self.level_registers(level, front, e);
            registry_events_join(a, b);
            let ra = registry_events(a);
            let rb = registry_events(b);
            reveal_with_fuel(registry_events, 4);
            let all = ra + rb;
            if let Some(scope) = level {
                let root = self.root_at(level, k);
                let x = self.shared(k);
                let y = self.shared(root);
                if root == k {
                    assert(rb =~= Seq::empty());
                } else if x == y {
                    let ev = seq![
                        SinkEvent::Overlay { node: k, root },
                        SinkEvent::Registry { root: x, scope },
                    ];
                    assert(ev.drop_last() =~= seq![SinkEvent::Overlay { node: k, root }]);
                    assert(ev.drop_last().drop_last() =~= Seq::empty());
                    assert(rb =~= seq![(x, scope)]);
                } else {
                    let ev = seq![
                        SinkEvent::Overlay { node: k, root },
                        SinkEvent::Registry { root: x, scope },
                        SinkEvent::Registry { root: y, scope },
                    ];
                    let one = ev.drop_last();
                    assert(one =~= seq![
                        SinkEvent::Overlay { node: k, root },
                        SinkEvent::Registry { root: x, scope },
                    ]);
                    assert(one.drop_last() =~= seq![SinkEvent::Overlay { node: k, root }]);
                    assert(one.drop_last().drop_last() =~= Seq::empty());
                    assert(rb =~= seq![(x, scope), (y, scope)]);
                }
            } else {
                assert(rb =~= Seq::empty()) by {
                    if b.len() > 0 {
                        assert(b.drop_last() =~= Seq::empty());
                    }
                }
            }
            let want = level == Some(e.1) && exists|i: int|
                0 <= i < keys.len() && self.touches_at(e.1, #[trigger] keys[i], e.0);
            if all.contains(e) {
                let i = all.index_of(e);
                if i < ra.len() {
                    assert(ra[i] == e);
                    assert(ra.contains(e));
                    let j = choose|j: int|
                        0 <= j < front.len() && self.touches_at(e.1, #[trigger] front[j], e.0);
                    assert(keys[j] == front[j]);
                } else {
                    assert(rb[i - ra.len()] == e);
                    assert(self.touches_at(e.1, keys[keys.len() - 1], e.0));
                }
                assert(want);
            }
            if want {
                let i = choose|i: int|
                    0 <= i < keys.len() && self.touches_at(e.1, #[trigger] keys[i], e.0);
                if i < front.len() {
                    assert(front[i] == keys[i]);
                    assert(ra.contains(e));
                    let j = ra.index_of(e);
                    assert(all[j] == e);
                } else {
                    let n = ra.len() as int;
                    if self.shared(k) == e.0 {
                        assert(all[n] == e);
                    } else if self.shared(k) == self.shared(self.overlay(e.1, k)) {
                        assert(all[n] == e);
                    } else {
                        assert(all[n + 1] == e);
                    }
                }
            }
        }
    }

    proof fn scopes_register(&self, scopes: Seq<ScopeId>, whole: bool, e: (NodeId, ScopeId))
        ensures
            registry_events(self.scope_events(scopes, whole)).contains(e) <==> scopes.contains(e.1)
                && exists|i: int|
                0 <= i < in_order(self.keys_at(Some(e.1), whole)).len() && self.touches_at(
                    e.1,
                    #[trigger] in_order(self.keys_at(Some(e.1), whole))[i],
                    e.0,
                ),
        decreases scopes.len(),
    {
        if scopes.len() > 0 {
            let front = scopes.drop_last();
            let scope = scopes.last();
            let keys = in_order(self.keys_at(Some(scope), whole));
            let a = self.scope_events(front, whole);
            let start = a.push(SinkEvent::ScopeStart { scope });
            let b = self.level_events(Some(scope), keys);
            let end = b.push(SinkEvent::ScopeEnd { scope });
            self.scopes_register(front, whole, e);
            self.level_registers(Some(scope), keys, e);
            registry_events_join(start, end);
            assert(start.drop_last() =~= a);
            assert(end.drop_last() =~= b);
            let ra = registry_events(a);
            let rb = registry_events(b);
            let all = ra + rb;
            assert(registry_events(self.scope_events(scopes, whole)) == all);
            if all.contains(e) {
                let i = all.index_of(e);
                if i < ra.len() {
                    assert(ra[i] == e);
                    assert(ra.contains(e));
                    let j = front.index_of(e.1);
                    assert(scopes[j] == e.1);
                } else {
                    assert(rb[i - ra.len()] == e);
                    assert(rb.contains(e));
                    assert(scopes[scopes.len() - 1] == e.1);
                }
            }
            if scopes.contains(e.1) && exists|i: int|
                0 <= i < in_order(self.keys_at(Some(e.1), whole)).len() && self.touches_at(
                    e.1,
                    #[trigger] in_order(self.keys_at(Some(e.1), whole))[i],
                    e.0,
                ) {
                if e.1 == scope {
                    assert(rb.contains(e));
                    let j = rb.index_of(e);
                    assert(all[ra.len() + j] == e);
                } else {
                    let j = scopes.index_of(e.1);
                    assert(front[j] == e.1);
                    assert(front.contains(e.1));
                    assert(ra.contains(e));
                    let k = ra.index_of(e);
                    assert(all[k] == e);
                }
            }
        }
    }

    /// **A stream registers exactly what it glues**: a scope is registered on a
    /// shared root if and only if one of its streamed pairs has an end there.
    pub proof fn streamed_registry_is_exact(&self, whole: bool)
        requires
            self.wf(),
            self.consistent(),
        ensures
            forall|e: (NodeId, ScopeId)|
                registry_events(self.stream(whole)).contains(e) <==> exists|k: NodeId| #[trigger]
                    self.streams_at(whole, e.1, k, e.0),
    {
        self.scopes_have_an_order();
        let shared_keys = in_order(self.keys_at(None, whole));
        let scopes = scopes_in_order(self.scopes_at(whole));
        let a = self.level_events(None, shared_keys);
        let b = self.scope_events(scopes, whole);
        registry_events_join(a, b);
        assert forall|e: (NodeId, ScopeId)|
            registry_events(self.stream(whole)).contains(e) <==> exists|k: NodeId| #[trigger]
                self.streams_at(whole, e.1, k, e.0) by {
            let ra = registry_events(a);
            let rb = registry_events(b);
            let all = ra + rb;
            self.level_registers(None, shared_keys, e);
            self.scopes_register(scopes, whole, e);
            self.level_keys_have_an_order(Some(e.1));
            let keys = in_order(self.keys_at(Some(e.1), whole));
            assert(scopes.contains(e.1) <==> scopes.to_set().contains(e.1));
            if all.contains(e) {
                let i = all.index_of(e);
                if i < ra.len() {
                    assert(ra[i] == e);
                    assert(ra.contains(e));
                } else {
                    assert(rb[i - ra.len()] == e);
                    assert(rb.contains(e));
                    let j = choose|j: int|
                        0 <= j < keys.len() && self.touches_at(e.1, #[trigger] keys[j], e.0);
                    assert(keys.to_set().contains(keys[j]));
                    assert(self.streams_at(whole, e.1, keys[j], e.0));
                }
            }
            if exists|k: NodeId| #[trigger] self.streams_at(whole, e.1, k, e.0) {
                let k = choose|k: NodeId| #[trigger] self.streams_at(whole, e.1, k, e.0);
                assert(keys.to_set().contains(k));
                assert(keys.contains(k));
                let j = keys.index_of(k);
                assert(self.touches_at(e.1, keys[j], e.0));
                assert(rb.contains(e));
                let i = rb.index_of(e);
                assert(all[ra.len() + i] == e);
            }
        }
    }

    /// The whole stream registers what a base of it must say.
    pub proof fn whole_stream_registers_the_base(&self)
        requires
            self.wf(),
            self.consistent(),
        ensures
            forall|e: (NodeId, ScopeId)|
                registry_events(self.stream(true)).contains(e) <==> self.encoded_registry(
                    e.0,
                ).contains(e.1),
    {
        self.streamed_registry_is_exact(true);
        assert forall|e: (NodeId, ScopeId)|
            registry_events(self.stream(true)).contains(e) <==> self.encoded_registry(
                e.0,
            ).contains(e.1) by {
            let (root, scope) = e;
            if exists|k: NodeId| #[trigger] self.streams_at(true, scope, k, root) {
                let k = choose|k: NodeId| #[trigger] self.streams_at(true, scope, k, root);
                assert(self.pair_touches(scope, k, root));
            }
            if self.encoded_registry(root).contains(scope) {
                let k = choose|k: NodeId| #[trigger] self.pair_touches(scope, k, root);
                assert(self.scopes_at(true).contains(scope)) by {
                    if !self.mem_overlay(scope).contains_key(k) {
                        assert(self.base_overlay(scope).contains_key(k));
                        if let Some(b) = self.base {
                            assert(b.overlay_links(scope).contains_key(k));
                            assert(b.scope_list().contains(scope));
                        }
                    }
                }
                assert(self.streams_at(true, scope, k, root));
            }
        }
    }
}

// --- what a delta adds ---------------------------------------------------------------

impl ScopedForest {
    /// What a base that is served says.
    pub proof fn served<B: RoutingBase + ?Sized>(&self, b: &B)
        requires
            self.serves(b),
        ensures
            self.base_shared() == b.shared_links(),
            forall|s: ScopeId| #[trigger] self.base_overlay(s) == b.overlay_links(s),
            forall|r: NodeId| #[trigger] self.base_registered(r) == b.registered(r),
    {
    }

    /// A fresh forest without a base links nothing.
    pub proof fn nothing_is_linked(&self)
        requires
            self.mem_is_fresh(),
        ensures
            self.mem_shared() == Map::<NodeId, NodeId>::empty(),
            forall|s: ScopeId| #[trigger]
                self.mem_overlay(s) == Map::<NodeId, NodeId>::empty(),
    {
    }

    /// Without a base the memtable is the whole state.
    pub proof fn the_memtable_is_the_state(&self)
        requires
            !self.has_base(),
        ensures
            forall|x: NodeId| #[trigger] self.shared(x) == root_of(self.mem_shared(), x),
            forall|s: ScopeId, x: NodeId| #[trigger]
                self.overlay(s, x) == root_of(self.mem_overlay(s), x),
            (forall|s: ScopeId, c: NodeId|
                self.shared(c) == c && !(#[trigger] self.mem_registered(c).contains(s))
                    ==> self.lone(s, c)) && (forall|s: ScopeId| #[trigger]
                self.elements_follow(s)) ==> self.consistent(),
    {
        if (forall|s: ScopeId, c: NodeId|
            self.shared(c) == c && !(#[trigger] self.mem_registered(c).contains(s)) ==> self.lone(
                s,
                c,
            )) && (forall|s: ScopeId| #[trigger] self.elements_follow(s)) {
            assert forall|s: ScopeId, c: NodeId| #[trigger] self.unnoticed(s, c) implies self.lone(
                s,
                c,
            ) by {
                assert(!self.mem_registered(c).contains(s));
            }
        }
    }

    /// Either handle on a base is the base that is served.
    pub proof fn served_by_either<A: RoutingBase + ?Sized, B: RoutingBase + ?Sized>(
        &self,
        a: &A,
        b: &B,
    )
        requires
            self.serves(b),
            same_base(a, b),
        ensures
            self.serves(a),
    {
    }

    /// The memtable's links over the base's, level by level.
    pub proof fn levels_compose(&self, level: Option<ScopeId>)
        requires
            self.wf(),
            self.consistent(),
        ensures
            descending(self.mem_at(level)),
            resolved(self.base_at(level)),
            above(self.mem_at(level), self.base_at(level)),
    {
        self.consistent_maps();
        if let Some(s) = level {
            assert(descending(self.mem_overlay(s)));
            assert(resolved(self.base_overlay(s)));
            assert(above(self.mem_overlay(s), self.base_overlay(s)));
        }
    }

    /// **The memtable is the dirty set**: what the memtable streams, over the
    /// base, is the whole forest. The streamed keys and roots are roots of the
    /// base.
    pub proof fn a_delta_completes_the_base(&self, level: Option<ScopeId>)
        requires
            self.wf(),
            self.consistent(),
        ensures
            forall|x: NodeId| #[trigger]
                step_up(self.streamed_links(level, false), step_up(self.base_at(level), x))
                    == self.root_at(level, x),
            resolved(self.streamed_links(level, false)),
            forall|k: NodeId| #[trigger]
                self.streamed_links(level, false).contains_key(k) ==> !self.base_at(
                    level,
                ).contains_key(k) && !self.base_at(level).contains_key(
                    self.streamed_links(level, false)[k],
                ),
            forall|x: NodeId| #[trigger]
                self.encoded(level).contains_key(x) <==> self.root_at(level, x) != x,
    {
        self.levels_compose(level);
        self.encoded_pairs_resolve(level);
        let mem = self.mem_at(level);
        let base = self.base_at(level);
        let d = self.streamed_links(level, false);
        assert forall|k: NodeId| #[trigger] d.contains_key(k) implies !base.contains_key(k)
            && !base.contains_key(d[k]) && d[k] < k && !d.contains_key(d[k]) by {
            composition_is_exact(mem, base, k);
            assert(self.root_at(level, k) == composed(mem, base, k));
        }
        assert forall|x: NodeId| #[trigger] step_up(d, step_up(base, x)) == self.root_at(
            level,
            x,
        ) by {
            let y = step_up(base, x);
            composition_is_exact(mem, base, x);
            composition_is_exact(mem, base, y);
            assert(self.root_at(level, x) == composed(mem, base, x));
            assert(self.root_at(level, y) == composed(mem, base, y));
            assert(step_up(base, y) == y);
            if !mem.contains_key(y) {
                assert(root_of(mem, y) == y);
            }
        }
    }

    /// **A delta registers what it glues**: where a scope glues something to a
    /// live shared root, either the base has it registered there or the
    /// memtable streams a pair with an end there.
    pub proof fn a_delta_registers_what_it_glues(&self, s: ScopeId, c: NodeId)
        requires
            self.wf(),
            self.consistent(),
            self.shared(c) == c,
            !self.lone(s, c),
        ensures
            self.base_registered(c).contains(s) || exists|k: NodeId| #[trigger]
                self.streams_at(false, s, k, c),
    {
        self.levels_compose(None);
        self.levels_compose(Some(s));
        let mem = self.mem_overlay(s);
        let base = self.base_overlay(s);
        composition_is_exact(self.mem_shared(), self.base_shared(), c);
        assert(!self.unnoticed(s, c));
        if !untouched(self.base_shared(), base, c) {
            if let Some(b) = self.base {
                assert(b.registered(c).contains(s)) by {
                    if !b.registered(c).contains(s) {
                        assert(untouched(b.shared_links(), b.overlay_links(s), c));
                    }
                }
            } else {
                assert(untouched(self.base_shared(), base, c));
            }
        } else {
            let k = choose|k: NodeId|
                (#[trigger] self.overlay(s, k)) != k && !(self.shared(k) != c && self.shared(
                    self.overlay(s, k),
                ) != c);
            let r = self.overlay(s, k);
            assert(self.elements_follow(s));
            assert(self.overlay(s, self.shared(k)) == r && self.overlay(s, self.shared(r)) == r);
            assert(self.overlay(s, c) == r);
            composition_is_exact(mem, base, c);
            composition_is_exact(mem, base, k);
            assert(step_up(self.base_shared(), c) == c);
            if r != c {
                // The live root itself has a link, and not in the base.
                if base.contains_key(c) {
                    assert(step_up(self.base_shared(), c) != c);
                }
                assert(mem.contains_key(c));
                assert(self.keys_at(Some(s), false).contains(c));
                self.linked_scopes_are_streamed(s, c);
                assert(self.streams_at(false, s, c, c));
            } else {
                let m = step_up(base, k);
                if base.contains_key(k) {
                    assert(step_up(self.base_shared(), base[k]) != c);
                }
                assert(m != c);
                root_is_a_root(mem, m);
                assert(root_of(mem, m) == c);
                assert(mem.contains_key(m)) by {
                    if !mem.contains_key(m) {
                        assert(root_of(mem, m) == m);
                    }
                }
                composition_is_exact(mem, base, m);
                assert(self.overlay(s, m) == c);
                self.linked_scopes_are_streamed(s, m);
                assert(self.streams_at(false, s, m, c));
            }
        }
    }

    /// A scope with a streamed pair is streamed.
    pub proof fn streamed_scopes_are_listed(&self, s: ScopeId, k: NodeId, whole: bool)
        requires
            self.wf(),
            self.consistent(),
            self.streamed_links(Some(s), whole).contains_key(k),
        ensures
            self.scopes_at(whole).contains(s),
    {
        if !self.mem_overlay(s).contains_key(k) {
            assert(self.base_overlay(s).contains_key(k));
            if let Some(b) = self.base {
                assert(b.overlay_links(s).contains_key(k));
                assert(b.scope_list().contains(s));
            }
        }
    }

    proof fn linked_scopes_are_streamed(&self, s: ScopeId, k: NodeId)
        requires
            self.mem_overlay(s).contains_key(k),
        ensures
            self.scopes_at(false).contains(s),
            self.keys_at(Some(s), false).contains(k),
    {
    }
}

/// **Events are counted one by one**, as far as the counter goes.
pub proof fn events_are_counted_one_by_one(before: u64, n: nat, m: nat)
    ensures
        before + n <= u64::MAX ==> counted(before, n) == before + n,
        counted(before, 0) == before,
        0 <= counted(before, n) <= u64::MAX,
        counted(counted(before, n) as u64, m) == counted(before, n + m),
{
    let w = 0x1_0000_0000_0000_0000int;
    vstd::arithmetic::div_mod::lemma_mod_bound(before + n, w);
    vstd::arithmetic::div_mod::lemma_add_mod_noop(before + n, m as int, w);
    vstd::arithmetic::div_mod::lemma_mod_twice(before + n, w);
    vstd::arithmetic::div_mod::lemma_add_mod_noop((before + n) % w, m as int, w);
}

/// **An edge is counted for what it changed**: a global one as a merge where it
/// joined two shared components, and as no overlay link; one of some scopes as a
/// link of each, and as no merge.
pub proof fn an_edge_is_counted_for_what_it_changed(
    before: &ScopedForest,
    after: &ScopedForest,
    audience: Option<Seq<ScopeId>>,
    u: NodeId,
    v: NodeId,
)
    requires
        after.counts_edge(before, audience, u, v),
    ensures
        audience is None && before.shared(u) != before.shared(v) ==> after.merge_count()
            == before.merge_count() + 1,
        audience is None && before.shared(u) == before.shared(v) ==> after.merge_count()
            == before.merge_count(),
        audience is None ==> after.scope_link_count() == before.scope_link_count(),
        audience is Some ==> after.merge_count() == before.merge_count() && after.fixup_count()
            == before.fixup_count(),
        audience is Some && before.scope_link_count() + audience->Some_0.len() <= u64::MAX
            ==> after.scope_link_count() == before.scope_link_count() + audience->Some_0.len(),
{
    if let Some(scopes) = audience {
        events_are_counted_one_by_one(before.scope_link_count(), scopes.len(), 0);
    }
}

/// **An edge that is applied is answered for**: asked next, the forest says that its
/// ends are connected in each scope that sees it, that nodes connected before still
/// are, and, where it joined neither, that nodes apart still are.
#[verifier::rlimit(50)]
pub proof fn an_applied_edge_is_answered_for(
    forest: &mut ScopedForest,
    asked: &mut ScopedForest,
    event: EdgeEvent,
    scope: ScopeId,
    u: NodeId,
    v: NodeId,
    yes: bool,
)
    requires
        old(forest).consistent(),
        call_ensures(ScopedForest::apply, (forest, &event), ()),
        *old(asked) == *final(forest),
        call_ensures(ScopedForest::connected, (asked, scope, u, v), yes),
    ensures
        ({
            let f = old(forest);
            let seen = crate::graph::history::visible(event, scope);
            let a = f.root_in(scope, event.src);
            let b = f.root_in(scope, event.dst);
            let was = f.root_in(scope, u) == f.root_in(scope, v);
            &&& seen && u == event.src && v == event.dst ==> yes
            &&& was ==> yes
            &&& !seen ==> (yes <==> was)
            &&& yes ==> was || (f.root_in(scope, u) == a && f.root_in(scope, v) == b) || (f.root_in(
                scope,
                u,
            ) == b && f.root_in(scope, v) == a)
        }),
{
}

/// **A forest reports what it did**: one event more for each that was applied, a
/// merge where a global edge joined two shared components, a link for each scope of
/// a scoped one, and nothing else of what it stands on.
#[verifier::rlimit(50)]
pub proof fn a_forest_reports_what_it_did(
    forest: &mut ScopedForest,
    event: EdgeEvent,
    before: ForestStats,
    after: ForestStats,
)
    requires
        old(forest).consistent(),
        call_ensures(ScopedForest::stats, (&*old(forest),), before),
        call_ensures(ScopedForest::apply, (forest, &event), ()),
        call_ensures(ScopedForest::stats, (&*final(forest),), after),
    ensures
        before.events_applied < u64::MAX ==> after.events_applied == before.events_applied + 1,
        after.folds == before.folds,
        after.base_shared_pairs == before.base_shared_pairs,
        after.base_overlay_pairs == before.base_overlay_pairs,
        after.base_sequence == before.base_sequence,
        after.members_available == before.members_available,
        match event.visibility.audience() {
            None => {
                &&& after.scope_links == before.scope_links
                &&& after.global_merges == before.global_merges + if old(forest).shared(event.src)
                    == old(forest).shared(event.dst) {
                    0int
                } else {
                    1
                }
            },
            Some(scopes) => {
                &&& after.global_merges == before.global_merges
                &&& after.merge_fixups == before.merge_fixups
                &&& before.scope_links + scopes.len() <= u64::MAX ==> after.scope_links
                    == before.scope_links + scopes.len()
            },
        },
{
    events_are_counted_one_by_one(before.events_applied, 1, 0);
    an_edge_is_counted_for_what_it_changed(
        old(forest),
        final(forest),
        event.visibility.audience(),
        event.src,
        event.dst,
    );
}

} // verus!
