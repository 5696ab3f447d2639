//! The in-heap half of a forest: everything applied since the base.

use dashmap::DashMap;
use std::collections::HashSet;
use std::hash::RandomState;
use vstd::prelude::*;

use super::dsu::{absorbed, higher, lower, root_of, Dsu, Merge};
use super::links::children_in;
use super::sorting::{scopes_ascending, sort_nodes, sort_scopes, strictly_ascending};
use super::types::{NodeId, ScopeId};

verus! {

broadcast use vstd::std_specs::hash::group_hash_axioms;

/// The overlays a map holds, by scope.
pub uninterp spec fn overlay_entries(m: DashMap<ScopeId, Dsu, RandomState>) -> Map<ScopeId, Dsu>;

/// `DashMap::new`: a map with no overlays.
#[verifier::external_body]
fn overlays_new() -> (m: DashMap<ScopeId, Dsu, RandomState>)
    ensures
        (overlay_entries(m) == Map::<ScopeId, Dsu>::empty()),
{
    DashMap::new()
}

/// `DashMap::remove`: takes out the overlay stored under `scope`, if any.
#[verifier::external_body]
fn overlays_take(m: &mut DashMap<ScopeId, Dsu, RandomState>, scope: ScopeId) -> (r: Option<Dsu>)
    ensures
        overlay_entries(*final(m)) == overlay_entries(*old(m)).remove(scope),
        r == (if overlay_entries(*old(m)).contains_key(scope) {
            Some(overlay_entries(*old(m))[scope])
        } else {
            None
        }),
{
    m.remove(&scope).map(|(_, overlay)| overlay)
}

/// `DashMap::insert`: stores `overlay` under `scope`, replacing what was there.
#[verifier::external_body]
fn overlays_put(m: &mut DashMap<ScopeId, Dsu, RandomState>, scope: ScopeId, overlay: Dsu)
    ensures
        overlay_entries(*final(m)) == overlay_entries(*old(m)).insert(scope, overlay),
{
    m.insert(scope, overlay);
}

/// `DashMap::iter`, keeping the keys: every scope once, in no particular order.
#[verifier::external_body]
fn overlays_scopes(m: &DashMap<ScopeId, Dsu, RandomState>) -> (r: Vec<ScopeId>)
    ensures
        r@.no_duplicates(),
        r@.to_set() == overlay_entries(*m).dom(),
{
    m.iter().map(|e| *e.key()).collect()
}

/// `DashMap::len`: the number of overlays.
#[verifier::external_body]
fn overlays_len(m: &DashMap<ScopeId, Dsu, RandomState>) -> (n: usize)
    ensures
        n == overlay_entries(*m).dom().len(),
{
    m.len()
}

/// The scopes a registry holds, by shared root.
pub uninterp spec fn registry_entries(m: DashMap<NodeId, HashSet<ScopeId>, RandomState>) -> Map<
    NodeId,
    Set<ScopeId>,
>;

/// `DashMap::new`: a registry with no entries.
#[verifier::external_body]
fn registry_new() -> (m: DashMap<NodeId, HashSet<ScopeId>, RandomState>)
    ensures
        (registry_entries(m) == Map::<NodeId, Set<ScopeId>>::empty()),
{
    DashMap::new()
}

/// `DashMap::remove`: takes out the scopes stored under `root`, if any.
#[verifier::external_body]
fn registry_take(
    m: &mut DashMap<NodeId, HashSet<ScopeId>, RandomState>,
    root: NodeId,
) -> (r: Option<HashSet<ScopeId>>)
    ensures
        registry_entries(*final(m)) == registry_entries(*old(m)).remove(root),
        (r is Some) == registry_entries(*old(m)).contains_key(root),
        r matches Some(scopes) ==> scopes@ == registry_entries(*old(m))[root],
{
    m.remove(&root).map(|(_, scopes)| scopes)
}

/// `DashMap::insert`: stores `scopes` under `root`, replacing what was there.
#[verifier::external_body]
fn registry_put(
    m: &mut DashMap<NodeId, HashSet<ScopeId>, RandomState>,
    root: NodeId,
    scopes: HashSet<ScopeId>,
)
    ensures
        registry_entries(*final(m)) == registry_entries(*old(m)).insert(root, scopes@),
{
    m.insert(root, scopes);
}

/// The elements of `set`, each once.
fn elements(set: &HashSet<ScopeId>) -> (v: Vec<ScopeId>)
    ensures
        v@.no_duplicates(),
        v@.to_set() == set@,
{
    let mut v: Vec<ScopeId> = Vec::new();
    for s in it: set.iter()
        invariant
            v@ == it.seq().unref().take(it.index() as int),
            it.index() == it.seq().len() ==> v@ =~= it.seq().unref(),
            it.seq().unref().to_set() == set@,
            it.seq().no_duplicates(),
    {
        v.push(*s);
    }
    v
}

/// One generation of in-heap state.
#[derive(Debug)]
pub struct Memtable {
    global: Dsu,
    overlays: DashMap<ScopeId, Dsu, RandomState>,
    /// global root -> scopes with overlay state keyed by that root.
    registry: DashMap<NodeId, HashSet<ScopeId>, RandomState>,
    /// Propagated to overlays as they are created on demand.
    member_index: bool,
}

/// Number of links in the overlays of the scopes below `n`.
pub open spec fn overlay_links_below(overlays: Map<ScopeId, Dsu>, n: nat) -> nat
    decreases n,
{
    if n == 0 {
        0
    } else {
        let scope = (n - 1) as ScopeId;
        overlay_links_below(overlays, (n - 1) as nat) + (if n <= u32::MAX + 1
            && overlays.contains_key(scope) {
            overlays[scope]@.dom().len()
        } else {
            0
        })
    }
}

/// Without overlays there are no overlay links.
pub proof fn no_overlays_no_links(n: nat)
    ensures
        overlay_links_below(Map::empty(), n) == 0,
    decreases n,
{
    if n > 0 {
        no_overlays_no_links((n - 1) as nat);
    }
}

impl Memtable {
    pub closed spec fn overlays(&self) -> Map<ScopeId, Dsu> {
        overlay_entries(self.overlays)
    }

    /// `node -> parent` links of the shared tier.
    pub closed spec fn shared_links(&self) -> Map<NodeId, NodeId> {
        self.global@
    }

    /// `element -> parent` links of `scope`'s overlay.
    pub open spec fn overlay_links(&self, scope: ScopeId) -> Map<NodeId, NodeId> {
        if self.overlays().contains_key(scope) {
            self.overlays()[scope]@
        } else {
            Map::empty()
        }
    }

    /// Scopes registered on the shared root `root`.
    pub closed spec fn registered(&self, root: NodeId) -> Set<ScopeId> {
        if registry_entries(self.registry).contains_key(root) {
            registry_entries(self.registry)[root]
        } else {
            Set::empty()
        }
    }

    /// Merge edges of the shared tier, where they are tracked.
    pub closed spec fn shared_edges(&self) -> Option<Map<NodeId, Seq<NodeId>>> {
        self.global.edges()
    }

    /// Merge edges of `scope`'s overlay, where they are tracked.
    pub open spec fn overlay_edges(&self, scope: ScopeId) -> Option<Map<NodeId, Seq<NodeId>>> {
        if self.overlays().contains_key(scope) {
            self.overlays()[scope].edges()
        } else if self.tracks() {
            Some(Map::empty())
        } else {
            None
        }
    }

    /// Whether merge edges are tracked downward.
    pub closed spec fn tracks(&self) -> bool {
        self.member_index
    }

    /// Merges performed in the shared tier.
    pub closed spec fn merge_count(&self) -> u64 {
        self.global.merge_count()
    }

    pub closed spec fn wf(&self) -> bool {
        &&& self.global.wf()
        &&& (self.global.edges() is Some) == self.member_index
        &&& self.overlays().dom().finite()
        &&& forall|s: ScopeId| #[trigger]
            self.overlays().contains_key(s) ==> {
                &&& self.overlays()[s].wf()
                &&& (self.overlays()[s].edges() is Some) == self.member_index
            }
    }

    /// Where merge edges are tracked, they cover every component.
    pub closed spec fn indexed(&self) -> bool {
        &&& self.global.indexed()
        &&& forall|s: ScopeId| #[trigger]
            self.overlays().contains_key(s) ==> self.overlays()[s].indexed()
    }

    /// Same links up to compression: nothing a query or a later merge can see
    /// differs.
    pub open spec fn agrees(&self, o: &Memtable) -> bool {
        &&& self.shared_links().dom() == o.shared_links().dom()
        &&& forall|x: NodeId| root_of(self.shared_links(), x) == root_of(o.shared_links(), x)
        &&& self.shared_edges() == o.shared_edges()
        &&& self.merge_count() == o.merge_count()
        &&& self.tracks() == o.tracks()
        &&& self.overlays().dom() == o.overlays().dom()
        &&& forall|s: ScopeId| #[trigger] self.overlay_like(o, s)
        &&& forall|r: NodeId| #[trigger] self.registered(r) == o.registered(r)
    }

    /// `scope`'s overlay is the same up to compression.
    pub open spec fn overlay_like(&self, o: &Memtable, scope: ScopeId) -> bool {
        &&& self.overlay_links(scope).dom() == o.overlay_links(scope).dom()
        &&& forall|x: NodeId|
            root_of(self.overlay_links(scope), x) == root_of(o.overlay_links(scope), x)
        &&& self.overlay_edges(scope) == o.overlay_edges(scope)
    }

    /// Agreement carries over a second step.
    pub proof fn agreement_chains(a: &Memtable, b: &Memtable, c: &Memtable)
        requires
            b.agrees(a),
            c.agrees(b),
        ensures
            c.agrees(a),
    {
        assert forall|s: ScopeId| #[trigger] c.overlay_like(a, s) by {
            assert(b.overlay_like(a, s));
            assert(c.overlay_like(b, s));
        }
        assert forall|r: NodeId| #[trigger] c.registered(r) == a.registered(r) by {
            assert(b.registered(r) == a.registered(r));
        }
    }

    pub fn new(member_index: bool) -> (m: Memtable)
        ensures
            m.wf(),
            m.indexed(),
            m.is_fresh(member_index),
    {
        Memtable {
            global: Dsu::tracking_members(member_index),
            overlays: overlays_new(),
            registry: registry_new(),
            member_index,
        }
    }

    /// Nothing applied yet.
    pub open spec fn is_fresh(&self, member_index: bool) -> bool {
        &&& self.shared_links() == Map::<NodeId, NodeId>::empty()
        &&& self.overlays() == Map::<ScopeId, Dsu>::empty()
        &&& forall|r: NodeId| #[trigger] self.registered(r) == Set::<ScopeId>::empty()
        &&& self.tracks() == member_index
        &&& self.merge_count() == 0
        &&& self.shared_edges() == (if member_index {
            Some(Map::<NodeId, Seq<NodeId>>::empty())
        } else {
            None
        })
    }

    /// What the links of a well-formed memtable satisfy.
    pub proof fn links_descend(&self)
        requires
            self.wf(),
        ensures
            super::dsu::descending(self.shared_links()),
            self.shared_links().dom().finite(),
            forall|s: ScopeId| #[trigger] super::dsu::descending(self.overlay_links(s)),
            forall|s: ScopeId| #[trigger] self.overlay_links(s).dom().finite(),
            (self.shared_edges() is Some) == self.tracks(),
            forall|s: ScopeId| (#[trigger] self.overlay_edges(s) is Some) == self.tracks(),
    {
        assert forall|s: ScopeId| #[trigger] super::dsu::descending(self.overlay_links(s)) by {
            if self.overlays().contains_key(s) {
                assert(self.overlays()[s].wf());
            }
        }
        assert forall|s: ScopeId| #[trigger] self.overlay_links(s).dom().finite() by {
            if self.overlays().contains_key(s) {
                assert(self.overlays()[s].wf());
            }
        }
    }

    pub proof fn finitely_many_overlays(&self)
        requires
            self.wf(),
        ensures
            self.overlays().dom().finite(),
    {
    }

    /// What the merge edges of an indexed memtable satisfy.
    pub proof fn edges_cover(&self)
        requires
            self.indexed(),
        ensures
            self.shared_edges() matches Some(e) ==> super::dsu::edges_index(
                self.shared_links(),
                e,
            ),
            forall|s: ScopeId|
                (#[trigger] self.overlay_edges(s)) matches Some(e) ==> super::dsu::edges_index(
                    self.overlay_links(s),
                    e,
                ),
    {
        assert forall|s: ScopeId|
            (#[trigger] self.overlay_edges(s)) matches Some(e) ==> super::dsu::edges_index(
                self.overlay_links(s),
                e,
            ) by {
            if self.overlays().contains_key(s) {
                assert(self.overlays()[s].indexed());
            } else if self.tracks() {
                let e = Map::<NodeId, Seq<NodeId>>::empty();
                assert(super::dsu::edges_index(self.overlay_links(s), e));
            }
        }
    }

    /// Shared-tier root of `x` among the links held here.
    pub fn shared_find(&mut self, x: NodeId, compress: bool) -> (r: NodeId)
        requires
            old(self).wf(),
        ensures
            r == root_of(old(self).shared_links(), x),
            final(self).wf(),
            final(self).agrees(old(self)),
            old(self).indexed() ==> final(self).indexed(),
    {
        if compress {
            self.global.find(x)
        } else {
            self.global.find_ro(x)
        }
    }

    /// Same as [`Memtable::shared_find`], compressing.
    pub fn shared_find_only(&mut self, x: NodeId) -> (r: NodeId)
        requires
            old(self).wf(),
        ensures
            r == root_of(old(self).shared_links(), x),
            final(self).wf(),
            final(self).shared_links().dom() == old(self).shared_links().dom(),
            forall|y: NodeId|
                root_of(final(self).shared_links(), y) == root_of(old(self).shared_links(), y),
            final(self).overlays() == old(self).overlays(),
            forall|r: NodeId| #[trigger] final(self).registered(r) == old(self).registered(r),
            final(self).tracks() == old(self).tracks(),
            old(self).indexed() ==> final(self).indexed(),
    {
        self.global.find(x)
    }

    /// Root of `x` among the links held here for `scope`.
    pub fn overlay_find(&mut self, scope: ScopeId, x: NodeId, compress: bool) -> (r: NodeId)
        requires
            old(self).wf(),
        ensures
            r == root_of(old(self).overlay_links(scope), x),
            final(self).wf(),
            final(self).agrees(old(self)),
            final(self).shared_links() == old(self).shared_links(),
            old(self).indexed() ==> final(self).indexed(),
    {
        let ghost before = *self;
        match overlays_take(&mut self.overlays, scope) {
            None => {
                assert(self.overlays() =~= before.overlays());
                x
            },
            Some(overlay) => {
                let mut overlay = overlay;
                assert(before.overlays().contains_key(scope));
                let r: NodeId = if compress {
                    overlay.find(x)
                } else {
                    overlay.find_ro(x)
                };
                overlays_put(&mut self.overlays, scope, overlay);
                proof {
                    assert(self.overlays().dom() =~= before.overlays().dom());
                    assert(self.overlays() =~= before.overlays().insert(scope, overlay));
                    assert forall|s: ScopeId| #[trigger] self.overlay_like(&before, s) by {
                        if s != scope {
                            assert(self.overlay_links(s) == before.overlay_links(s));
                        }
                    }
                    self.wf_after_update(&before, scope);
                }
                r
            },
        }
    }

    proof fn wf_after_update(&self, before: &Memtable, scope: ScopeId)
        requires
            before.wf(),
            self.global == before.global,
            self.member_index == before.member_index,
            self.overlays().contains_key(scope),
            self.overlays() == before.overlays().insert(scope, self.overlays()[scope]),
            self.overlays()[scope].wf(),
            (self.overlays()[scope].edges() is Some) == self.member_index,
        ensures
            self.wf(),
            before.indexed() && self.overlays()[scope].indexed() ==> self.indexed(),
    {
        assert forall|s: ScopeId| #[trigger] self.overlays().contains_key(s) implies {
            &&& self.overlays()[s].wf()
            &&& (self.overlays()[s].edges() is Some) == self.member_index
            &&& before.indexed() && self.overlays()[scope].indexed()
                ==> self.overlays()[s].indexed()
        } by {
            if s != scope {
                assert(before.overlays().contains_key(s));
            }
        }
    }

    /// Joins the components of `u` and `v` in the shared tier.
    pub fn shared_union(&mut self, u: NodeId, v: NodeId) -> (r: Option<Merge>)
        requires
            old(self).wf(),
        ensures
            final(self).wf(),
            old(self).indexed() ==> final(self).indexed(),
            (r is None) == (root_of(old(self).shared_links(), u) == root_of(
                old(self).shared_links(),
                v,
            )),
            r is None ==> final(self).agrees(old(self)),
            r matches Some(m) ==> {
                &&& m.child == higher(
                    root_of(old(self).shared_links(), u),
                    root_of(old(self).shared_links(), v),
                )
                &&& m.parent == lower(
                    root_of(old(self).shared_links(), u),
                    root_of(old(self).shared_links(), v),
                )
                &&& forall|y: NodeId|
                    root_of(final(self).shared_links(), y) == absorbed(
                        root_of(old(self).shared_links(), y),
                        m.child,
                        m.parent,
                    )
                &&& final(self).shared_links().dom() == old(self).shared_links().dom().insert(
                    m.child,
                )
                &&& !old(self).shared_links().contains_key(m.child)
                &&& final(self).merge_count() == old(self).merge_count() + 1
            },
            final(self).overlays() == old(self).overlays(),
            forall|r: NodeId| #[trigger] final(self).registered(r) == old(self).registered(r),
            final(self).tracks() == old(self).tracks(),
    {
        self.global.union(u, v)
    }

    /// Joins the components of `a` and `b` in `scope`'s overlay, creating the
    /// overlay if the scope has none yet.
    pub fn overlay_union(&mut self, scope: ScopeId, a: NodeId, b: NodeId)
        requires
            old(self).wf(),
        ensures
            final(self).wf(),
            old(self).indexed() ==> final(self).indexed(),
            final(self).overlays().dom() == old(self).overlays().dom().insert(scope),
            joins(old(self).overlay_links(scope), final(self).overlay_links(scope), a, b),
            forall|s: ScopeId|
                s != scope ==> #[trigger] final(self).overlay_links(s) == old(self).overlay_links(
                    s,
                ),
            final(self).shared_links() == old(self).shared_links(),
            final(self).shared_edges() == old(self).shared_edges(),
            final(self).merge_count() == old(self).merge_count(),
            forall|r: NodeId| #[trigger] final(self).registered(r) == old(self).registered(r),
            final(self).tracks() == old(self).tracks(),
    {
        let ghost before = *self;
        let mut overlay: Dsu = match overlays_take(&mut self.overlays, scope) {
            Some(overlay) => overlay,
            None => Dsu::tracking_members(self.member_index),
        };
        proof {
            if before.overlays().contains_key(scope) {
                assert(before.overlays()[scope].wf());
            }
            assert(overlay@ == before.overlay_links(scope));
            super::dsu::root_is_a_root(overlay@, a);
            super::dsu::root_is_a_root(overlay@, b);
        }
        let _ = overlay.union(a, b);
        overlays_put(&mut self.overlays, scope, overlay);
        proof {
            assert(self.overlays() =~= before.overlays().insert(scope, overlay));
            assert(self.overlays().dom() =~= before.overlays().dom().insert(scope));
            self.wf_after_update(&before, scope);
        }
    }

    /// Registers `scopes` on the shared root `root`.
    pub fn register(&mut self, root: NodeId, scopes: &Vec<ScopeId>)
        requires
            old(self).wf(),
        ensures
            final(self).wf(),
            old(self).indexed() ==> final(self).indexed(),
            final(self).registered(root) == old(self).registered(root).union(scopes@.to_set()),
            forall|r: NodeId|
                r != root ==> #[trigger] final(self).registered(r) == old(self).registered(r),
            final(self).overlays() == old(self).overlays(),
            final(self).shared_links() == old(self).shared_links(),
            final(self).shared_edges() == old(self).shared_edges(),
            final(self).merge_count() == old(self).merge_count(),
            final(self).tracks() == old(self).tracks(),
    {
        let mut set: HashSet<ScopeId> = match registry_take(&mut self.registry, root) {
            Some(set) => set,
            None => HashSet::new(),
        };
        let ghost start = set@;
        let mut i: usize = 0;
        while i < scopes.len()
            invariant
                i <= scopes.len(),
                set@ == start.union(scopes@.take(i as int).to_set()),
            decreases scopes.len() - i,
        {
            let ghost seen = scopes@.take(i as int);
            set.insert(scopes[i]);
            proof {
                let next = scopes@.take(i + 1);
                assert(next.drop_last() =~= seen);
                assert forall|x: ScopeId| next.to_set().contains(x) == seen.to_set().insert(
                    scopes@[i as int],
                ).contains(x) by {
                    if next.contains(x) {
                        let j = next.index_of(x);
                        if j < i {
                            assert(seen[j] == x);
                        }
                    }
                    if seen.contains(x) {
                        let j = seen.index_of(x);
                        assert(next[j] == x);
                    }
                    if x == scopes@[i as int] {
                        assert(next[i as int] == x);
                    }
                }
                assert(set@ =~= start.union(next.to_set()));
            }
            i += 1;
        }
        proof {
            assert(scopes@.take(i as int) =~= scopes@);
        }
        registry_put(&mut self.registry, root, set);
    }

    /// Takes the scopes registered on `root` out of the registry, each once.
    pub fn take_registered(&mut self, root: NodeId) -> (r: Vec<ScopeId>)
        requires
            old(self).wf(),
        ensures
            final(self).wf(),
            old(self).indexed() ==> final(self).indexed(),
            r@.no_duplicates(),
            r@.to_set() == old(self).registered(root),
            final(self).registered(root) == Set::<ScopeId>::empty(),
            forall|r: NodeId|
                r != root ==> #[trigger] final(self).registered(r) == old(self).registered(r),
            final(self).overlays() == old(self).overlays(),
            final(self).shared_links() == old(self).shared_links(),
            final(self).shared_edges() == old(self).shared_edges(),
            final(self).merge_count() == old(self).merge_count(),
            final(self).tracks() == old(self).tracks(),
    {
        match registry_take(&mut self.registry, root) {
            Some(set) => elements(&set),
            None => {
                let none: Vec<ScopeId> = Vec::new();
                assert(none@.to_set() =~= Set::<ScopeId>::empty());
                none
            },
        }
    }

    /// Records resolved pairs of the shared tier.
    pub fn hydrate_shared(&mut self, pairs: &Vec<(NodeId, NodeId)>)
        requires
            old(self).wf(),
            super::dsu::pairs_descend(pairs@),
        ensures
            final(self).wf(),
            final(self).shared_links() == super::dsu::linked(old(self).shared_links(), pairs@),
            old(self).indexed() && super::dsu::links_survive(old(self).shared_links(), pairs@)
                ==> final(self).indexed(),
            final(self).overlays() == old(self).overlays(),
            forall|r: NodeId| #[trigger] final(self).registered(r) == old(self).registered(r),
            final(self).tracks() == old(self).tracks(),
    {
        self.global.hydrate(pairs);
    }

    /// Records resolved pairs of `scope`'s overlay, creating the overlay if the
    /// scope has none yet.
    pub fn hydrate_overlay(&mut self, scope: ScopeId, pairs: &Vec<(NodeId, NodeId)>)
        requires
            old(self).wf(),
            super::dsu::pairs_descend(pairs@),
        ensures
            final(self).wf(),
            final(self).overlays().dom() == old(self).overlays().dom().insert(scope),
            final(self).overlay_links(scope) == super::dsu::linked(
                old(self).overlay_links(scope),
                pairs@,
            ),
            forall|s: ScopeId|
                s != scope ==> #[trigger] final(self).overlay_links(s) == old(self).overlay_links(
                    s,
                ),
            old(self).indexed() && super::dsu::links_survive(
                old(self).overlay_links(scope),
                pairs@,
            ) ==> final(self).indexed(),
            final(self).shared_links() == old(self).shared_links(),
            forall|r: NodeId| #[trigger] final(self).registered(r) == old(self).registered(r),
            final(self).tracks() == old(self).tracks(),
            final(self).merge_count() == old(self).merge_count(),
    {
        let ghost before = *self;
        let mut overlay: Dsu = match overlays_take(&mut self.overlays, scope) {
            Some(overlay) => overlay,
            None => Dsu::tracking_members(self.member_index),
        };
        proof {
            if before.overlays().contains_key(scope) {
                assert(before.overlays()[scope].wf());
            }
            assert(overlay@ == before.overlay_links(scope));
        }
        overlay.hydrate(pairs);
        overlays_put(&mut self.overlays, scope, overlay);
        proof {
            assert(self.overlays() =~= before.overlays().insert(scope, overlay));
            assert(self.overlays().dom() =~= before.overlays().dom().insert(scope));
            self.wf_after_update(&before, scope);
        }
    }

    /// Every node with a shared link, ascending.
    pub fn shared_keys(&self) -> (keys: Vec<NodeId>)
        ensures
            strictly_ascending(keys@),
            keys@.to_set() == self.shared_links().dom(),
    {
        let mut keys: Vec<NodeId> = self.global.keys();
        sort_nodes(&mut keys);
        keys
    }

    /// Every element with a link in `scope`'s overlay, ascending.
    pub fn overlay_keys(&mut self, scope: ScopeId) -> (keys: Vec<NodeId>)
        requires
            old(self).wf(),
        ensures
            strictly_ascending(keys@),
            keys@.to_set() == old(self).overlay_links(scope).dom(),
            final(self).wf(),
            final(self).agrees(old(self)),
            old(self).indexed() ==> final(self).indexed(),
    {
        let ghost before = *self;
        match overlays_take(&mut self.overlays, scope) {
            None => {
                let keys: Vec<NodeId> = Vec::new();
                proof {
                    assert(keys@.to_set() =~= Set::<NodeId>::empty());
                    assert(Map::<NodeId, NodeId>::empty().dom() =~= Set::<NodeId>::empty());
                    assert(self.overlays() =~= before.overlays());
                }
                keys
            },
            Some(overlay) => {
                let mut keys: Vec<NodeId> = overlay.keys();
                sort_nodes(&mut keys);
                overlays_put(&mut self.overlays, scope, overlay);
                proof {
                    assert(before.overlays().contains_key(scope));
                    assert(self.overlays() =~= before.overlays());
                }
                keys
            },
        }
    }

    /// Nodes absorbed directly into `parent` in the shared tier, appended to
    /// `out`.
    pub fn shared_children(&self, parent: NodeId, out: &mut Vec<NodeId>)
        ensures
            final(out)@ == old(out)@ + listed(self.shared_edges(), parent),
    {
        self.global.children_of(parent, out);
    }

    /// Same within `scope`'s overlay.
    pub fn overlay_children(&mut self, scope: ScopeId, parent: NodeId, out: &mut Vec<NodeId>)
        requires
            old(self).wf(),
        ensures
            final(out)@ == old(out)@ + listed(old(self).overlay_edges(scope), parent),
            final(self).wf(),
            final(self).agrees(old(self)),
            old(self).indexed() ==> final(self).indexed(),
    {
        let ghost before = *self;
        match overlays_take(&mut self.overlays, scope) {
            None => {
                proof {
                    assert(self.overlays() =~= before.overlays());
                    assert(out@ =~= out@ + Seq::<NodeId>::empty());
                }
            },
            Some(overlay) => {
                overlay.children_of(parent, out);
                overlays_put(&mut self.overlays, scope, overlay);
                proof {
                    assert(before.overlays().contains_key(scope));
                    assert(self.overlays() =~= before.overlays());
                }
            },
        }
    }

    /// Scopes with an overlay, ascending.
    pub fn scopes(&self) -> (scopes: Vec<ScopeId>)
        ensures
            scopes_ascending(scopes@),
            scopes@.to_set() == self.overlays().dom(),
    {
        let mut scopes: Vec<ScopeId> = overlays_scopes(&self.overlays);
        sort_scopes(&mut scopes);
        scopes
    }
}

/// The largest count a `u64` can report, or `n` itself.
pub open spec fn capped(n: nat) -> u64 {
    if n <= u64::MAX {
        n as u64
    } else {
        u64::MAX
    }
}

/// A stretch of scopes without overlays holds no links.
proof fn no_links_between(overlays: Map<ScopeId, Dsu>, lo: nat, hi: nat)
    requires
        lo <= hi <= u32::MAX + 1,
        forall|s: ScopeId| lo <= s < hi ==> !(#[trigger] overlays.contains_key(s)),
    ensures
        overlay_links_below(overlays, hi) == overlay_links_below(overlays, lo),
    decreases hi - lo,
{
    if lo < hi {
        no_links_between(overlays, lo, (hi - 1) as nat);
        assert(!overlays.contains_key((hi - 1) as ScopeId));
    }
}

impl Memtable {
    /// Links held here: the shared tier's and every overlay's.
    pub open spec fn link_count(&self) -> nat {
        self.shared_links().dom().len() + overlay_links_below(
            self.overlays(),
            (u32::MAX + 1) as nat,
        )
    }

    fn overlay_len(&mut self, scope: ScopeId) -> (n: usize)
        requires
            old(self).wf(),
        ensures
            n == old(self).overlay_links(scope).dom().len(),
            final(self).wf(),
            final(self).agrees(old(self)),
            old(self).indexed() ==> final(self).indexed(),
            final(self).overlays() == old(self).overlays(),
            final(self).shared_links() == old(self).shared_links(),
    {
        let ghost before = *self;
        match overlays_take(&mut self.overlays, scope) {
            None => {
                assert(self.overlays() =~= before.overlays());
                assert(Map::<NodeId, NodeId>::empty().dom() =~= Set::<NodeId>::empty());
                0
            },
            Some(overlay) => {
                let n: usize = overlay.len_links();
                overlays_put(&mut self.overlays, scope, overlay);
                proof {
                    assert(before.overlays().contains_key(scope));
                    assert(self.overlays() =~= before.overlays());
                }
                n
            },
        }
    }

    /// Links held here, as far as a `u64` can count.
    pub fn links(&mut self) -> (n: u64)
        requires
            old(self).wf(),
        ensures
            n == capped(old(self).link_count()),
            final(self).wf(),
            final(self).agrees(old(self)),
            old(self).indexed() ==> final(self).indexed(),
    {
        let ghost start = *self;
        let ghost overlays = self.overlays();
        let scopes: Vec<ScopeId> = self.scopes();
        let mut total: u64 = self.global.len_links() as u64;
        let ghost shared = self.shared_links().dom().len();
        let ghost mut below: nat = 0;
        let mut i: usize = 0;
        while i < scopes.len()
            invariant
                i <= scopes.len(),
                self.wf(),
                self.agrees(&start),
                start.indexed() ==> self.indexed(),
                self.overlays() == overlays,
                scopes_ascending(scopes@),
                scopes@.to_set() == overlays.dom(),
                below <= u32::MAX + 1,
                below == (if i == 0 {
                    0
                } else {
                    (scopes@[i - 1] + 1) as nat
                }),
                total == capped(shared + overlay_links_below(overlays, below)),
            decreases scopes.len() - i,
        {
            let scope: ScopeId = scopes[i];
            let ghost prior = *self;
            let n: usize = self.overlay_len(scope);
            proof {
                Memtable::agreement_chains(&start, &prior, self);
                assert forall|s: ScopeId| below <= s < scope implies !(
                #[trigger] overlays.contains_key(s)) by {
                    if overlays.contains_key(s) {
                        assert(scopes@.to_set().contains(s));
                        let j = scopes@.index_of(s);
                        if j < i && j < i - 1 {
                            assert(scopes@[j] < scopes@[i - 1]);
                        }
                        if j > i {
                            assert(scopes@[i as int] < scopes@[j]);
                        }
                    }
                }
                assert(i > 0 ==> scopes@[i - 1] < scopes@[i as int]);
                no_links_between(overlays, below, scope as nat);
                assert(scopes@.to_set().contains(scope));
                assert(overlays.contains_key(scope));
                assert(overlay_links_below(overlays, (scope + 1) as nat) == overlay_links_below(
                    overlays,
                    scope as nat,
                ) + n);
                below = (scope + 1) as nat;
            }
            total = total.saturating_add(n as u64);
            i += 1;
        }
        proof {
            assert forall|s: ScopeId| below <= s < u32::MAX + 1 implies !(
            #[trigger] overlays.contains_key(s)) by {
                if overlays.contains_key(s) {
                    assert(scopes@.to_set().contains(s));
                    let j = scopes@.index_of(s);
                    if j < i - 1 {
                        assert(scopes@[j] < scopes@[i - 1]);
                    }
                }
            }
            no_links_between(overlays, below, (u32::MAX + 1) as nat);
        }
        total
    }

    /// Links of the shared tier.
    pub fn shared_len(&self) -> (n: usize)
        ensures
            n == self.shared_links().dom().len(),
    {
        self.global.len_links()
    }

    /// Merges performed in the shared tier.
    pub fn merges(&self) -> (n: u64)
        ensures
            n == self.merge_count(),
    {
        self.global.merges()
    }

    /// Number of scopes with an overlay.
    pub fn overlay_count(&self) -> (n: usize)
        ensures
            n == self.overlays().dom().len(),
    {
        overlays_len(&self.overlays)
    }
}

/// Nodes listed below `parent`, where edges are tracked.
pub open spec fn listed(edges: Option<Map<NodeId, Seq<NodeId>>>, parent: NodeId) -> Seq<NodeId> {
    match edges {
        Some(edges) => children_in(edges, parent),
        None => Seq::empty(),
    }
}

/// `after` is `before` with the components of `a` and `b` joined.
pub open spec fn joins(
    before: Map<NodeId, NodeId>,
    after: Map<NodeId, NodeId>,
    a: NodeId,
    b: NodeId,
) -> bool {
    let hi = higher(root_of(before, a), root_of(before, b));
    let lo = lower(root_of(before, a), root_of(before, b));
    &&& forall|y: NodeId| root_of(after, y) == absorbed(root_of(before, y), hi, lo)
    &&& after.dom() == (if hi == lo {
        before.dom()
    } else {
        before.dom().insert(hi)
    })
}

/// **A count is reported as it is**, as far as the counter goes.
pub proof fn a_count_is_reported_as_it_is(n: nat)
    ensures
        n <= u64::MAX ==> capped(n) == n,
        n > u64::MAX ==> capped(n) == u64::MAX,
{
}

} // verus!
