//! A disjoint-set-union (union-find) over sparse `u64` node ids.
//!
//! **Canonical roots**: unions always keep the *lowest node id* as the root,
//! so a component's representative is deterministic: the smallest graph id it
//! contains ("lowest graph id wins"). Merges can therefore only ever move a
//! component's id downward, which trends toward stable ids as graphs grow.
//!
//! **Two find flavors**:
//! - [`Dsu::find`] (write path): compresses via path-halving as it walks.
//! - [`Dsu::find_ro`] (query path): walks without compressing. If it meets a
//!   pathologically long chain it performs one repair write to cap future
//!   walks.

use dashmap::DashMap;
use std::hash::RandomState;
use vstd::prelude::*;

use super::links::{
    child_entries, children_get, children_in, children_new, children_push, link_entries, links_get,
    links_insert, links_keys, links_len, links_new, ChildIndex,
};
use super::types::NodeId;

verus! {

/// Read-only walks longer than this trigger a single compressing write; keeps
/// the query path effectively read-only while capping pathological chains.
pub const RO_COMPRESS_DEPTH: usize = 8;

/// Result of a union that actually merged two components.
#[derive(Debug, Clone, Copy, PartialEq, Eq, Structural)]
pub struct Merge {
    /// The root that was absorbed (no longer a root afterwards). Always the
    /// larger id of the two.
    pub child: NodeId,
    /// The surviving root: the smallest id in the merged component.
    pub parent: NodeId,
}

// --- the mathematics of parent links -------------------------------------

/// Every link points at a smaller id, so every chain of links ends.
pub open spec fn descending(links: Map<NodeId, NodeId>) -> bool {
    forall|k: NodeId| #[trigger] links.contains_key(k) ==> links[k] < k
}

/// The end of the chain of links from `x`.
pub open spec fn root_of(links: Map<NodeId, NodeId>, x: NodeId) -> NodeId
    decreases x,
{
    if links.contains_key(x) && links[x] < x {
        root_of(links, links[x])
    } else {
        x
    }
}

/// How many links the chain from `x` has.
pub open spec fn depth_of(links: Map<NodeId, NodeId>, x: NodeId) -> nat
    decreases x,
{
    if links.contains_key(x) && links[x] < x {
        1 + depth_of(links, links[x])
    } else {
        0
    }
}

/// The links after a path-halving walk from `x`: every other node on the chain
/// points at its grandparent.
pub open spec fn halved(links: Map<NodeId, NodeId>, x: NodeId) -> Map<NodeId, NodeId>
    decreases x,
{
    if links.contains_key(x) && links[x] < x && links.contains_key(links[x]) && links[links[x]]
        < links[x] {
        let grandparent = links[links[x]];
        halved(links.insert(x, grandparent), grandparent)
    } else {
        links
    }
}

/// The links after a read-only walk from `x`: one repair where the chain was
/// long.
pub open spec fn repaired(links: Map<NodeId, NodeId>, x: NodeId) -> Map<NodeId, NodeId> {
    if depth_of(links, x) > RO_COMPRESS_DEPTH {
        links.insert(x, root_of(links, x))
    } else {
        links
    }
}

/// The root `r` becomes once `child` is absorbed into `parent`.
pub open spec fn absorbed(r: NodeId, child: NodeId, parent: NodeId) -> NodeId {
    if r == child {
        parent
    } else {
        r
    }
}

pub open spec fn lower(a: NodeId, b: NodeId) -> NodeId {
    if a < b {
        a
    } else {
        b
    }
}

pub open spec fn higher(a: NodeId, b: NodeId) -> NodeId {
    if a < b {
        b
    } else {
        a
    }
}

/// The links after recording `pairs` in order, ignoring a node paired with
/// itself.
pub open spec fn linked(links: Map<NodeId, NodeId>, pairs: Seq<(NodeId, NodeId)>) -> Map<
    NodeId,
    NodeId,
>
    decreases pairs.len(),
{
    if pairs.len() == 0 {
        links
    } else {
        let before = linked(links, pairs.drop_last());
        let (node, root) = pairs.last();
        if node != root {
            before.insert(node, root)
        } else {
            before
        }
    }
}

/// The child lists after recording `pairs` in order.
pub open spec fn edges_linked(
    edges: Map<NodeId, Seq<NodeId>>,
    pairs: Seq<(NodeId, NodeId)>,
) -> Map<NodeId, Seq<NodeId>>
    decreases pairs.len(),
{
    if pairs.len() == 0 {
        edges
    } else {
        let before = edges_linked(edges, pairs.drop_last());
        let (node, root) = pairs.last();
        if node != root {
            before.insert(root, children_in(before, root).push(node))
        } else {
            before
        }
    }
}

/// No pair points a node at a larger id.
pub open spec fn pairs_descend(pairs: Seq<(NodeId, NodeId)>) -> bool {
    forall|i: int| 0 <= i < pairs.len() ==> (#[trigger] pairs[i]).1 <= pairs[i].0
}

/// `edges` indexes the forest of `links` downward: every non-root is listed
/// under some node of its own component, and nothing else is listed.
pub open spec fn edges_index(
    links: Map<NodeId, NodeId>,
    edges: Map<NodeId, Seq<NodeId>>,
) -> bool {
    &&& forall|k: NodeId| #[trigger]
        links.contains_key(k) ==> exists|p: NodeId| #[trigger] children_in(edges, p).contains(k)
    &&& forall|p: NodeId, k: NodeId| #[trigger]
        children_in(edges, p).contains(k) ==> p < k && links.contains_key(k) && root_of(links, p)
            == root_of(links, k)
}

/// Roots: no link of their own, and no larger than any node below them.
pub proof fn root_is_a_root(links: Map<NodeId, NodeId>, x: NodeId)
    requires
        descending(links),
    ensures
        !links.contains_key(root_of(links, x)),
        root_of(links, x) <= x,
        links.contains_key(x) ==> root_of(links, x) < x,
        root_of(links, root_of(links, x)) == root_of(links, x),
    decreases x,
{
    if links.contains_key(x) {
        root_is_a_root(links, links[x]);
    }
}

/// Lowest id wins: the representative of a component is a member of it, and no
/// member has a smaller id.
pub proof fn lowest_id_wins(links: Map<NodeId, NodeId>, x: NodeId, y: NodeId)
    requires
        descending(links),
        root_of(links, x) == root_of(links, y),
    ensures
        root_of(links, x) <= y,
        root_of(links, root_of(links, x)) == root_of(links, x),
{
    root_is_a_root(links, x);
    root_is_a_root(links, y);
}

/// Pointing a node at one of its own ancestors moves no root.
pub proof fn shortcut_keeps_roots(links: Map<NodeId, NodeId>, x: NodeId, up: NodeId, y: NodeId)
    requires
        descending(links),
        links.contains_key(x),
        up < x,
        root_of(links, up) == root_of(links, x),
    ensures
        descending(links.insert(x, up)),
        root_of(links.insert(x, up), y) == root_of(links, y),
    decreases y,
{
    let after = links.insert(x, up);
    assert(descending(after)) by {
        assert forall|k: NodeId| #[trigger] after.contains_key(k) implies after[k] < k by {
            if k != x {
                assert(links.contains_key(k));
            }
        }
    }
    if y == x {
        shortcut_keeps_roots(links, x, up, up);
    } else if links.contains_key(y) {
        shortcut_keeps_roots(links, x, up, links[y]);
    }
}

/// A path-halving walk moves no root and adds no link.
pub proof fn halving_keeps_roots(links: Map<NodeId, NodeId>, x: NodeId)
    requires
        descending(links),
    ensures
        descending(halved(links, x)),
        halved(links, x).dom() == links.dom(),
        forall|y: NodeId| root_of(halved(links, x), y) == root_of(links, y),
    decreases x,
{
    if links.contains_key(x) && links.contains_key(links[x]) {
        let p = links[x];
        let gp = links[p];
        let step = links.insert(x, gp);
        assert(root_of(links, p) == root_of(links, gp));
        assert(root_of(links, x) == root_of(links, p));
        assert forall|y: NodeId| root_of(step, y) == root_of(links, y) by {
            shortcut_keeps_roots(links, x, gp, y);
        }
        shortcut_keeps_roots(links, x, gp, x);
        halving_keeps_roots(step, gp);
        assert(step.dom() =~= links.dom());
    }
}

/// A read-only walk moves no root and adds no link.
pub proof fn repair_keeps_roots(links: Map<NodeId, NodeId>, x: NodeId)
    requires
        descending(links),
    ensures
        descending(repaired(links, x)),
        repaired(links, x).dom() == links.dom(),
        forall|y: NodeId| root_of(repaired(links, x), y) == root_of(links, y),
{
    if depth_of(links, x) > RO_COMPRESS_DEPTH {
        root_is_a_root(links, x);
        let up = root_of(links, x);
        assert(links.contains_key(x));
        assert forall|y: NodeId| root_of(links.insert(x, up), y) == root_of(links, y) by {
            shortcut_keeps_roots(links, x, up, y);
        }
        shortcut_keeps_roots(links, x, up, x);
        assert(repaired(links, x).dom() =~= links.dom());
    }
}

/// Linking one root under another joins exactly their two components.
pub proof fn linking_joins_two(
    links: Map<NodeId, NodeId>,
    child: NodeId,
    parent: NodeId,
    y: NodeId,
)
    requires
        descending(links),
        !links.contains_key(child),
        !links.contains_key(parent),
        parent < child,
    ensures
        descending(links.insert(child, parent)),
        root_of(links.insert(child, parent), y) == absorbed(root_of(links, y), child, parent),
    decreases y,
{
    let after = links.insert(child, parent);
    assert(descending(after)) by {
        assert forall|k: NodeId| #[trigger] after.contains_key(k) implies after[k] < k by {
            if k != child {
                assert(links.contains_key(k));
            }
        }
    }
    if y == child {
        assert(root_of(after, parent) == parent);
    } else if links.contains_key(y) {
        linking_joins_two(links, child, parent, links[y]);
    }
}

/// There are fewer non-roots than there are ids.
proof fn fewer_links_than_ids(links: Map<NodeId, NodeId>)
    requires
        descending(links),
        links.dom().finite(),
    ensures
        links.dom().len() <= u64::MAX,
{
    let as_int = |k: NodeId| k as int;
    let ids = links.dom().map(as_int);
    let range = vstd::set_lib::set_int_range(1, u64::MAX + 1);
    vstd::set_lib::lemma_int_range(1, u64::MAX + 1);
    assert(ids.subset_of(range)) by {
        assert forall|i: int| ids.contains(i) implies range.contains(i) by {
            let k = choose|k: NodeId| links.dom().contains(k) && i == as_int(k);
            assert(links.contains_key(k));
            assert(links[k] < k);
        }
    }
    vstd::set_lib::lemma_map_size(links.dom(), ids, as_int);
    vstd::set_lib::lemma_len_subset(ids, range);
}

/// Recording descending pairs keeps every link descending.
pub proof fn linking_pairs_descends(
    links: Map<NodeId, NodeId>,
    pairs: Seq<(NodeId, NodeId)>,
)
    requires
        descending(links),
        pairs_descend(pairs),
    ensures
        descending(linked(links, pairs)),
        links.dom().finite() ==> linked(links, pairs).dom().finite(),
    decreases pairs.len(),
{
    if pairs.len() > 0 {
        let front = pairs.drop_last();
        assert forall|i: int| 0 <= i < front.len() implies (#[trigger] front[i]).1
            <= front[i].0 by {
            assert(front[i] == pairs[i]);
        }
        linking_pairs_descends(links, front);
        let before = linked(links, front);
        let (node, root) = pairs.last();
        assert(pairs[pairs.len() - 1].1 <= pairs[pairs.len() - 1].0);
        let after = linked(links, pairs);
        assert forall|k: NodeId| #[trigger] after.contains_key(k) implies after[k] < k by {
            if k != node || node == root {
                assert(before.contains_key(k));
            }
        }
    }
}

// --- the structure itself --------------------------------------------------

/// A union-find whose view is its `node -> parent` links. A node with no link
/// is a root (or has never been seen, which is the same thing: a singleton
/// component).
#[derive(Debug)]
pub struct Dsu {
    parents: DashMap<NodeId, NodeId, RandomState>,
    /// The **merge edges** inverted: `parent -> roots absorbed into it`. `None`
    /// unless the member index is on, because every deployment would otherwise
    /// pay for it.
    ///
    /// Deliberately *not* the inverse of `parents`: recording only the link a
    /// union makes is still complete, since a non-root got there by being
    /// absorbed, and compression moves the parent link without un-merging
    /// anything.
    children: Option<ChildIndex>,
    /// Number of successful merges (components joined).
    merges: u64,
}

impl View for Dsu {
    type V = Map<NodeId, NodeId>;

    closed spec fn view(&self) -> Map<NodeId, NodeId> {
        link_entries(self.parents)
    }
}

impl Default for Dsu {
    fn default() -> (d: Dsu)
        ensures
            d.wf(),
            d.indexed(),
            d@ == Map::<NodeId, NodeId>::empty(),
            d.edges() is None,
            d.merge_count() == 0,
    {
        Dsu { parents: links_new(), children: None, merges: 0 }
    }
}

impl Dsu {
    /// The merge edges recorded downward, where the member index is on.
    pub closed spec fn edges(&self) -> Option<Map<NodeId, Seq<NodeId>>> {
        match self.children {
            Some(c) => Some(child_entries(c)),
            None => None,
        }
    }

    /// How many merges were performed.
    pub closed spec fn merge_count(&self) -> u64 {
        self.merges
    }

    /// Links descend, there are finitely many, and each stands for one merge.
    pub open spec fn wf(&self) -> bool {
        &&& descending(self@)
        &&& self@.dom().finite()
        &&& self.merge_count() == self@.dom().len()
    }

    /// Where the member index is on, it covers the forest.
    pub open spec fn indexed(&self) -> bool {
        self.edges() matches Some(edges) ==> edges_index(self@, edges)
    }

    /// The representative of `x`'s component.
    #[verifier::inline]
    pub open spec fn root(&self, x: NodeId) -> NodeId {
        root_of(self@, x)
    }

    pub fn new() -> (d: Dsu)
        ensures
            d.wf(),
            d.indexed(),
            d@ == Map::<NodeId, NodeId>::empty(),
            d.edges() is None,
            d.merge_count() == 0,
    {
        Self::default()
    }

    /// A DSU that also records merge edges downward, so a component can be
    /// listed.
    pub fn tracking_members(track: bool) -> (d: Dsu)
        ensures
            d.wf(),
            d.indexed(),
            d@ == Map::<NodeId, NodeId>::empty(),
            d.edges() == (if track {
                Some(Map::<NodeId, Seq<NodeId>>::empty())
            } else {
                None
            }),
            d.merge_count() == 0,
    {
        let children = if track {
            Some(children_new())
        } else {
            None
        };
        Dsu { parents: links_new(), children, merges: 0 }
    }

    /// Whether downward walks are answerable here.
    pub fn tracks_members(&self) -> (r: bool)
        ensures
            r == (self.edges() is Some),
    {
        self.children.is_some()
    }

    /// Roots absorbed directly into `parent`, appended to `out`.
    pub fn children_of(&self, parent: NodeId, out: &mut Vec<NodeId>)
        ensures
            final(out)@ == old(out)@ + (match self.edges() {
                Some(edges) => children_in(edges, parent),
                None => Seq::empty(),
            }),
    {
        if let Some(children) = &self.children {
            let mut kids: Vec<NodeId> = children_get(children, parent);
            out.append(&mut kids);
        }
    }

    /// The link recorded for `node`, if it has one.
    pub fn parent(&self, node: NodeId) -> (r: Option<NodeId>)
        ensures
            r == (if self@.contains_key(node) {
                Some(self@[node])
            } else {
                None
            }),
    {
        links_get(&self.parents, node)
    }

    /// Record `child -> parent` in both directions.
    fn link(&mut self, child: NodeId, parent: NodeId)
        ensures
            final(self)@ == old(self)@.insert(child, parent),
            final(self).edges() == (match old(self).edges() {
                Some(edges) => Some(edges.insert(parent, children_in(edges, parent).push(child))),
                None => None,
            }),
            final(self).merge_count() == old(self).merge_count(),
    {
        links_insert(&mut self.parents, child, parent);
        if let Some(children) = &mut self.children {
            children_push(children, parent, child);
        }
    }

    /// Current representative of `x`'s component: the lowest node id in it.
    /// Applies path-halving so chains flatten on the write path.
    pub fn find(&mut self, x: NodeId) -> (r: NodeId)
        requires
            old(self).wf(),
        ensures
            r == old(self).root(x),
            final(self)@ == halved(old(self)@, x),
            final(self).wf(),
            forall|y: NodeId| final(self).root(y) == old(self).root(y),
            final(self)@.dom() == old(self)@.dom(),
            final(self).edges() == old(self).edges(),
            final(self).merge_count() == old(self).merge_count(),
            old(self).indexed() ==> final(self).indexed(),
    {
        let mut x: NodeId = x;
        let ghost start = x;
        loop
            invariant
                descending(self@),
                halved(old(self)@, start) == halved(self@, x),
                root_of(self@, x) == root_of(old(self)@, start),
                self.edges() == old(self).edges(),
                self.merge_count() == old(self).merge_count(),
                old(self).wf(),
            ensures
                self@ == halved(old(self)@, start),
                x == root_of(old(self)@, start),
                self.edges() == old(self).edges(),
                self.merge_count() == old(self).merge_count(),
            decreases x,
        {
            let p: NodeId = match self.parent(x) {
                Some(p) => p,
                None => {
                    break;
                },
            };
            proof {
                assert(self@.contains_key(x));
            }
            let gp: NodeId = match self.parent(p) {
                Some(gp) => gp,
                None => {
                    x = p;
                    break;
                },
            };
            proof {
                assert(self@.contains_key(p));
                assert(root_of(self@, x) == root_of(self@, p));
                assert(root_of(self@, p) == root_of(self@, gp));
                shortcut_keeps_roots(self@, x, gp, gp);
            }
            links_insert(&mut self.parents, x, gp);
            x = gp;
        }
        proof {
            halving_keeps_roots(old(self)@, start);
        }
        x
    }

    /// Read-only representative lookup for the query path. Long chains
    /// (possible under min-id linking before the write path re-touches them)
    /// get one repair write pointing the start node at its root.
    pub fn find_ro(&mut self, x: NodeId) -> (r: NodeId)
        requires
            old(self).wf(),
        ensures
            r == old(self).root(x),
            final(self)@ == repaired(old(self)@, x),
            final(self).wf(),
            forall|y: NodeId| final(self).root(y) == old(self).root(y),
            final(self)@.dom() == old(self)@.dom(),
            final(self).edges() == old(self).edges(),
            final(self).merge_count() == old(self).merge_count(),
            old(self).indexed() ==> final(self).indexed(),
    {
        let mut cur: NodeId = x;
        let mut deep: usize = 0;
        loop
            invariant
                self.wf(),
                *self == *old(self),
                root_of(self@, cur) == root_of(self@, x),
                deep <= RO_COMPRESS_DEPTH + 1,
                deep <= RO_COMPRESS_DEPTH ==> depth_of(self@, x) == deep + depth_of(self@, cur),
                deep > RO_COMPRESS_DEPTH ==> depth_of(self@, x) > RO_COMPRESS_DEPTH,
            ensures
                cur == root_of(self@, x),
                (deep > RO_COMPRESS_DEPTH) == (depth_of(self@, x) > RO_COMPRESS_DEPTH),
            decreases cur,
        {
            match self.parent(cur) {
                Some(p) => {
                    assert(self@.contains_key(cur));
                    cur = p;
                    if deep <= RO_COMPRESS_DEPTH {
                        deep += 1;
                    }
                },
                None => {
                    break;
                },
            }
        }
        if deep > RO_COMPRESS_DEPTH {
            links_insert(&mut self.parents, x, cur);
        }
        proof {
            repair_keeps_roots(old(self)@, x);
        }
        cur
    }

    /// Merge the components of `u` and `v`; the smaller root id survives.
    /// Returns the merge that happened, or `None` if already connected.
    pub fn union(&mut self, u: NodeId, v: NodeId) -> (r: Option<Merge>)
        requires
            old(self).wf(),
        ensures
            final(self).wf(),
            old(self).indexed() ==> final(self).indexed(),
            (r is None) == (old(self).root(u) == old(self).root(v)),
            r is None ==> {
                &&& forall|y: NodeId| final(self).root(y) == old(self).root(y)
                &&& final(self)@.dom() == old(self)@.dom()
                &&& final(self).edges() == old(self).edges()
                &&& final(self).merge_count() == old(self).merge_count()
            },
            r matches Some(m) ==> {
                &&& m.child == higher(old(self).root(u), old(self).root(v))
                &&& m.parent == lower(old(self).root(u), old(self).root(v))
                &&& forall|y: NodeId|
                    final(self).root(y) == absorbed(old(self).root(y), m.child, m.parent)
                &&& final(self)@.dom() == old(self)@.dom().insert(m.child)
                &&& !old(self)@.contains_key(m.child)
                &&& final(self).edges() == (match old(self).edges() {
                    Some(edges) => Some(
                        edges.insert(m.parent, children_in(edges, m.parent).push(m.child)),
                    ),
                    None => None,
                })
                &&& final(self).merge_count() == old(self).merge_count() + 1
            },
    {
        let ru: NodeId = self.find(u);
        let rv: NodeId = self.find(v);
        if ru == rv {
            return None;
        }
        // Lowest graph id wins: deterministic canonical representatives.
        let (child, parent): (NodeId, NodeId) = if ru < rv {
            (rv, ru)
        } else {
            (ru, rv)
        };
        let ghost before = *self;
        proof {
            root_is_a_root(self@, u);
            root_is_a_root(self@, v);
            assert forall|y: NodeId|
                root_of(self@.insert(child, parent), y) == absorbed(
                    root_of(self@, y),
                    child,
                    parent,
                ) by {
                linking_joins_two(self@, child, parent, y);
            }
            linking_joins_two(self@, child, parent, child);
        }
        self.link(child, parent);
        proof {
            fewer_links_than_ids(self@);
            if before.indexed() && before.edges() is Some {
                merge_edge_keeps_the_index(
                    before@,
                    before.edges()->Some_0,
                    child,
                    parent,
                );
            }
        }
        self.merges = self.merges + 1;
        Some(Merge { child, parent })
    }

    /// Whether `u` and `v` share a component (read-only walks).
    pub fn connected(&mut self, u: NodeId, v: NodeId) -> (r: bool)
        requires
            old(self).wf(),
        ensures
            r == (old(self).root(u) == old(self).root(v)),
            final(self)@ == repaired(repaired(old(self)@, u), v),
            final(self).wf(),
            forall|y: NodeId| final(self).root(y) == old(self).root(y),
            final(self)@.dom() == old(self)@.dom(),
            final(self).edges() == old(self).edges(),
            final(self).merge_count() == old(self).merge_count(),
            old(self).indexed() ==> final(self).indexed(),
    {
        let ru: NodeId = self.find_ro(u);
        let rv: NodeId = self.find_ro(v);
        ru == rv
    }

    /// Number of parent links, i.e. nodes that are not roots. Equals the
    /// total number of merges ever performed.
    pub fn len_links(&self) -> (n: usize)
        ensures
            n == self@.dom().len(),
    {
        links_len(&self.parents)
    }

    pub fn merges(&self) -> (n: u64)
        ensures
            n == self.merge_count(),
    {
        self.merges
    }

    /// Every node with a parent link (i.e. every non-root this map knows), in
    /// no particular order.
    pub fn keys(&self) -> (keys: Vec<NodeId>)
        ensures
            keys@.no_duplicates(),
            keys@.to_set() == self@.dom(),
    {
        links_keys(&self.parents)
    }

    /// Fully-resolved `(node, root)` pairs for every non-root node, in no
    /// particular order.
    pub fn snapshot(&mut self) -> (pairs: Vec<(NodeId, NodeId)>)
        requires
            old(self).wf(),
        ensures
            lists_roots(pairs@, old(self)@),
            final(self).wf(),
            forall|y: NodeId| final(self).root(y) == old(self).root(y),
            final(self)@.dom() == old(self)@.dom(),
            final(self).edges() == old(self).edges(),
            final(self).merge_count() == old(self).merge_count(),
            old(self).indexed() ==> final(self).indexed(),
    {
        let keys: Vec<NodeId> = self.keys();
        let mut pairs: Vec<(NodeId, NodeId)> = Vec::new();
        let mut i: usize = 0;
        while i < keys.len()
            invariant
                i <= keys.len(),
                old(self).wf(),
                keys@.no_duplicates(),
                keys@.to_set() == old(self)@.dom(),
                pairs.len() == i,
                forall|j: int|
                    0 <= j < i ==> (#[trigger] pairs@[j]) == (keys@[j], old(self).root(keys@[j])),
                self.wf(),
                forall|y: NodeId| self.root(y) == old(self).root(y),
                self@.dom() == old(self)@.dom(),
                self.edges() == old(self).edges(),
                self.merge_count() == old(self).merge_count(),
                old(self).indexed() ==> self.indexed(),
            decreases keys.len() - i,
        {
            let key: NodeId = keys[i];
            let root: NodeId = self.find(key);
            pairs.push((key, root));
            i += 1;
        }
        proof {
            assert forall|a: int, b: int| 0 <= a < b < pairs@.len() implies (
            #[trigger] pairs@[a]).0 != (#[trigger] pairs@[b]).0 by {
                assert(keys@[a] != keys@[b]);
            }
            assert forall|j: int| 0 <= j < pairs@.len() implies old(self)@.contains_key(
                (#[trigger] pairs@[j]).0,
            ) by {
                assert(keys@.to_set().contains(keys@[j]));
            }
            assert forall|k: NodeId| #[trigger] old(self)@.contains_key(k) implies exists|j: int|
                0 <= j < pairs@.len() && (#[trigger] pairs@[j]).0 == k by {
                assert(keys@.to_set().contains(k));
                let j = keys@.index_of(k);
                assert(pairs@[j].0 == k);
            }
        }
        pairs
    }

    /// Rebuild state from `(node, root)` pairs produced by [`Dsu::snapshot`].
    /// Pairs are fully resolved, so trees hydrated from one are depth 1. A
    /// later pair for the same node replaces the earlier one.
    pub fn hydrate(&mut self, pairs: &Vec<(NodeId, NodeId)>)
        requires
            old(self).wf(),
            pairs_descend(pairs@),
        ensures
            final(self)@ == linked(old(self)@, pairs@),
            final(self).edges() == (match old(self).edges() {
                Some(edges) => Some(edges_linked(edges, pairs@)),
                None => None,
            }),
            final(self).wf(),
            old(self).indexed() && links_survive(old(self)@, pairs@) ==> final(self).indexed(),
    {
        let mut i: usize = 0;
        while i < pairs.len()
            invariant
                i <= pairs.len(),
                self@ == linked(old(self)@, pairs@.take(i as int)),
                self.edges() == (match old(self).edges() {
                    Some(edges) => Some(edges_linked(edges, pairs@.take(i as int))),
                    None => None,
                }),
            decreases pairs.len() - i,
        {
            let (node, root): (NodeId, NodeId) = pairs[i];
            if node != root {
                // Hydrated pairs *are* the merge edges as far as this DSU is
                // concerned: the chains they came from were flattened on the
                // way out, so the downward walk from the root reaches the node
                // in one hop.
                self.link(node, root);
            }
            proof {
                assert(pairs@.take(i + 1).drop_last() =~= pairs@.take(i as int));
            }
            i += 1;
        }
        proof {
            assert(pairs@.take(i as int) =~= pairs@);
            linking_pairs_descends(old(self)@, pairs@);
            fewer_links_than_ids(self@);
            if old(self).indexed() && old(self).edges() is Some && links_survive(
                old(self)@,
                pairs@,
            ) {
                linked_pairs_keep_the_index(old(self)@, old(self).edges()->Some_0, pairs@);
            }
        }
        let n: usize = self.len_links();
        self.merges = n as u64;
    }
}

/// `pairs` names every non-root of `links` once, with its root.
pub open spec fn lists_roots(pairs: Seq<(NodeId, NodeId)>, links: Map<NodeId, NodeId>) -> bool {
    &&& forall|a: int, b: int|
        0 <= a < b < pairs.len() ==> (#[trigger] pairs[a]).0 != (#[trigger] pairs[b]).0
    &&& forall|j: int|
        0 <= j < pairs.len() ==> links.contains_key((#[trigger] pairs[j]).0) && pairs[j].1
            == root_of(links, pairs[j].0)
    &&& forall|k: NodeId| #[trigger]
        links.contains_key(k) ==> exists|j: int| 0 <= j < pairs.len() && (#[trigger] pairs[j]).0 == k
}

/// Recording `pairs` over `links` separates nothing that was together, and
/// leaves both ends of every pair together.
pub open spec fn links_survive(
    links: Map<NodeId, NodeId>,
    pairs: Seq<(NodeId, NodeId)>,
) -> bool {
    let after = linked(links, pairs);
    &&& forall|x: NodeId, y: NodeId|
        root_of(links, x) == root_of(links, y) ==> #[trigger] root_of(after, x) == #[trigger] root_of(
            after,
            y,
        )
    &&& forall|i: int|
        0 <= i < pairs.len() ==> root_of(after, (#[trigger] pairs[i]).0) == root_of(
            after,
            pairs[i].1,
        )
}

/// A link of `linked` is either an old one or the last pair for its node.
pub proof fn linked_lookup(links: Map<NodeId, NodeId>, pairs: Seq<(NodeId, NodeId)>, k: NodeId)
    ensures
        linked(links, pairs).contains_key(k) ==> (links.contains_key(k) && linked(links, pairs)[k]
            == links[k]) || exists|i: int|
            0 <= i < pairs.len() && #[trigger] pairs[i] == (k, linked(links, pairs)[k]) && k
                != linked(links, pairs)[k],
        links.contains_key(k) ==> linked(links, pairs).contains_key(k),
        forall|i: int|
            0 <= i < pairs.len() && (#[trigger] pairs[i]).0 == k && pairs[i].1 != k ==> linked(
                links,
                pairs,
            ).contains_key(k),
    decreases pairs.len(),
{
    if pairs.len() > 0 {
        let front = pairs.drop_last();
        linked_lookup(links, front, k);
        let (node, root) = pairs.last();
        let after = linked(links, pairs);
        if after.contains_key(k) {
            if k == node && node != root {
                assert(pairs[pairs.len() - 1] == (k, after[k]));
            } else {
                let before = linked(links, front);
                assert(after[k] == before[k]);
                if !(links.contains_key(k) && before[k] == links[k]) {
                    let i = choose|i: int|
                        0 <= i < front.len() && #[trigger] front[i] == (k, before[k]) && k
                            != before[k];
                    assert(pairs[i] == (k, after[k]));
                }
            }
        }
        assert forall|i: int|
            0 <= i < pairs.len() && (#[trigger] pairs[i]).0 == k && pairs[i].1
                != k implies after.contains_key(k) by {
            if i < front.len() {
                assert(front[i] == pairs[i]);
            }
        }
    }
}

/// A child list of `edges_linked` holds the old entries and the paired nodes.
proof fn edges_linked_lookup(
    edges: Map<NodeId, Seq<NodeId>>,
    pairs: Seq<(NodeId, NodeId)>,
    p: NodeId,
    k: NodeId,
)
    ensures
        children_in(edges_linked(edges, pairs), p).contains(k) <==> (children_in(edges, p).contains(
            k,
        ) || (p != k && exists|i: int| 0 <= i < pairs.len() && #[trigger] pairs[i] == (k, p))),
    decreases pairs.len(),
{
    if pairs.len() > 0 {
        let front = pairs.drop_last();
        edges_linked_lookup(edges, front, p, k);
        let (node, root) = pairs.last();
        let before = edges_linked(edges, front);
        let after = edges_linked(edges, pairs);
        let was = children_in(before, p);
        let is = children_in(after, p);
        let last = pairs.len() - 1;
        if node != root && root == p {
            assert(is == was.push(node));
            if is.contains(k) {
                let i = is.index_of(k);
                if i < was.len() {
                    assert(was[i] == k);
                    assert(was.contains(k));
                } else {
                    assert(pairs[last] == (k, p));
                }
            }
            if was.contains(k) {
                let i = was.index_of(k);
                assert(is[i] == k);
            }
            if node == k {
                assert(is[was.len() as int] == k);
            }
        } else {
            assert(is == was);
        }
        if exists|i: int| 0 <= i < front.len() && #[trigger] front[i] == (k, p) {
            let i = choose|i: int| 0 <= i < front.len() && #[trigger] front[i] == (k, p);
            assert(pairs[i] == (k, p));
        }
        if p != k && exists|i: int| 0 <= i < pairs.len() && #[trigger] pairs[i] == (k, p) {
            let i = choose|i: int| 0 <= i < pairs.len() && #[trigger] pairs[i] == (k, p);
            if i < last {
                assert(front[i] == (k, p));
            }
        }
    }
}

proof fn linked_pairs_keep_the_index(
    links: Map<NodeId, NodeId>,
    edges: Map<NodeId, Seq<NodeId>>,
    pairs: Seq<(NodeId, NodeId)>,
)
    requires
        descending(links),
        pairs_descend(pairs),
        edges_index(links, edges),
        links_survive(links, pairs),
    ensures
        edges_index(linked(links, pairs), edges_linked(edges, pairs)),
{
    let links2 = linked(links, pairs);
    let edges2 = edges_linked(edges, pairs);
    assert forall|k: NodeId| #[trigger] links2.contains_key(k) implies exists|p: NodeId| #[trigger]
        children_in(edges2, p).contains(k) by {
        linked_lookup(links, pairs, k);
        if links.contains_key(k) {
            let p = choose|p: NodeId| #[trigger] children_in(edges, p).contains(k);
            edges_linked_lookup(edges, pairs, p, k);
            assert(children_in(edges2, p).contains(k));
        } else {
            let i = choose|i: int|
                0 <= i < pairs.len() && #[trigger] pairs[i] == (k, links2[k]) && k != links2[k];
            edges_linked_lookup(edges, pairs, links2[k], k);
            assert(children_in(edges2, links2[k]).contains(k));
        }
    }
    assert forall|p: NodeId, k: NodeId| #[trigger] children_in(edges2, p).contains(k) implies p < k
        && links2.contains_key(k) && root_of(links2, p) == root_of(links2, k) by {
        edges_linked_lookup(edges, pairs, p, k);
        linked_lookup(links, pairs, k);
        if children_in(edges, p).contains(k) {
            assert(links.contains_key(k));
        } else {
            let i = choose|i: int| 0 <= i < pairs.len() && #[trigger] pairs[i] == (k, p);
            assert(pairs[i].1 <= pairs[i].0);
        }
    }
}

/// Hydrating an empty union-find from a snapshot gives back every root, at
/// depth one, and with the same non-roots.
pub proof fn hydrating_a_snapshot_keeps_every_root(
    pairs: Seq<(NodeId, NodeId)>,
    links: Map<NodeId, NodeId>,
)
    requires
        descending(links),
        lists_roots(pairs, links),
    ensures
        pairs_descend(pairs),
        links_survive(Map::empty(), pairs),
        linked(Map::empty(), pairs).dom() == links.dom(),
        forall|x: NodeId| root_of(linked(Map::empty(), pairs), x) == root_of(links, x),
        forall|x: NodeId| depth_of(linked(Map::empty(), pairs), x) <= 1,
{
    let none = Map::<NodeId, NodeId>::empty();
    let fresh = linked(none, pairs);
    assert forall|i: int| 0 <= i < pairs.len() implies (#[trigger] pairs[i]).1 < pairs[i].0 by {
        root_is_a_root(links, pairs[i].0);
    }
    assert forall|k: NodeId|
        #![trigger fresh.contains_key(k)]
        #![trigger links.contains_key(k)]
        fresh.contains_key(k) == links.contains_key(k) && (fresh.contains_key(k) ==> fresh[k]
            == root_of(links, k)) by {
        linked_lookup(none, pairs, k);
        if links.contains_key(k) {
            let j = choose|j: int| 0 <= j < pairs.len() && (#[trigger] pairs[j]).0 == k;
            assert(pairs[j].1 < pairs[j].0);
        }
    }
    assert(fresh.dom() =~= links.dom());
    assert forall|x: NodeId|
        root_of(fresh, x) == root_of(links, x) && depth_of(fresh, x) <= 1 by {
        root_is_a_root(links, x);
        if fresh.contains_key(x) {
            let top = root_of(links, x);
            assert(!fresh.contains_key(top));
            assert(root_of(fresh, top) == top && depth_of(fresh, top) == 0);
        }
    }
    assert forall|i: int| 0 <= i < pairs.len() implies root_of(fresh, (#[trigger] pairs[i]).0)
        == root_of(fresh, pairs[i].1) by {
        root_is_a_root(links, pairs[i].0);
    }
}

/// Every member of a component can be reached from its representative along
/// merge edges: each non-root is listed under a smaller member of its own
/// component.
pub proof fn merge_edges_reach_every_member(
    links: Map<NodeId, NodeId>,
    edges: Map<NodeId, Seq<NodeId>>,
    x: NodeId,
)
    requires
        descending(links),
        edges_index(links, edges),
    ensures
        reaches(edges, root_of(links, x), x),
    decreases x,
{
    if links.contains_key(x) {
        let p = choose|p: NodeId| #[trigger] children_in(edges, p).contains(x);
        merge_edges_reach_every_member(links, edges, p);
        assert(reaches(edges, root_of(links, x), p));
    }
}

/// Whether `edges` lead from `top` down to `x`.
pub open spec fn reaches(edges: Map<NodeId, Seq<NodeId>>, top: NodeId, x: NodeId) -> bool
    decreases x,
{
    top == x || exists|p: NodeId|
        p < x && #[trigger] children_in(edges, p).contains(x) && reaches(edges, top, p)
}

/// Recording a merge edge keeps the index covering the forest.
proof fn merge_edge_keeps_the_index(
    links: Map<NodeId, NodeId>,
    edges: Map<NodeId, Seq<NodeId>>,
    child: NodeId,
    parent: NodeId,
)
    requires
        descending(links),
        edges_index(links, edges),
        !links.contains_key(child),
        !links.contains_key(parent),
        parent < child,
    ensures
        edges_index(
            links.insert(child, parent),
            edges.insert(parent, children_in(edges, parent).push(child)),
        ),
{
    let links2 = links.insert(child, parent);
    let edges2 = edges.insert(parent, children_in(edges, parent).push(child));
    assert forall|k: NodeId| #[trigger] links2.contains_key(k) implies exists|p: NodeId| #[trigger]
        children_in(edges2, p).contains(k) by {
        if k == child {
            let list = children_in(edges2, parent);
            assert(list[list.len() - 1] == child);
            assert(list.contains(child));
        } else {
            assert(links.contains_key(k));
            let p = choose|p: NodeId| #[trigger] children_in(edges, p).contains(k);
            if p == parent {
                let i = children_in(edges, p).index_of(k);
                assert(children_in(edges2, p)[i] == k);
            }
            assert(children_in(edges2, p).contains(k));
        }
    }
    assert forall|p: NodeId, k: NodeId| #[trigger] children_in(edges2, p).contains(k) implies p < k
        && links2.contains_key(k) && root_of(links2, p) == root_of(links2, k) by {
        linking_joins_two(links, child, parent, p);
        linking_joins_two(links, child, parent, k);
        if p == parent {
            let i = children_in(edges2, p).index_of(k);
            if i < children_in(edges, p).len() {
                assert(children_in(edges, p)[i] == k);
                assert(children_in(edges, p).contains(k));
            } else {
                assert(k == child);
            }
        } else {
            assert(children_in(edges, p).contains(k));
        }
    }
}

/// **The lower root survives a merge**: of two roots one is the lower and the other
/// the higher, and only what was rooted at the higher is rooted elsewhere after.
pub proof fn the_lower_root_survives(a: NodeId, b: NodeId, r: NodeId)
    requires
        a != b,
    ensures
        lower(a, b) < higher(a, b),
        (lower(a, b) == a && higher(a, b) == b) || (lower(a, b) == b && higher(a, b) == a),
        absorbed(higher(a, b), higher(a, b), lower(a, b)) == lower(a, b),
        r != higher(a, b) ==> absorbed(r, higher(a, b), lower(a, b)) == r,
{
}

/// **A union joins its two components and no other**, under the lower of their two
/// roots, and reports the one it absorbed; where they were one already it changes
/// nothing.
pub proof fn a_union_joins_two_components(
    forest: &mut Dsu,
    u: NodeId,
    v: NodeId,
    r: Option<Merge>,
    x: NodeId,
    y: NodeId,
)
    requires
        old(forest).wf(),
        call_ensures(Dsu::union, (forest, u, v), r),
    ensures
        ({
            let a = old(forest).root(u);
            let b = old(forest).root(v);
            let was = old(forest).root(x) == old(forest).root(y);
            let is = final(forest).root(x) == final(forest).root(y);
            &&& final(forest).root(u) == final(forest).root(v)
            &&& is <==> was || (old(forest).root(x) == a && old(forest).root(y) == b) || (old(
                forest,
            ).root(x) == b && old(forest).root(y) == a)
            &&& final(forest).root(x) <= old(forest).root(x)
            &&& final(forest).root(u) == a || final(forest).root(u) == b
            &&& r is None <==> a == b
            &&& r matches Some(m) ==> m.parent < m.child && final(forest).root(m.child)
                == m.parent
        }),
{
    assert(final(forest).root(u) == final(forest).root(v));
    assert(final(forest).root(x) <= forest.root(x));
    assert(final(forest).root(y) <= forest.root(y));
    if let Some(m) = r {
        root_is_a_root(forest@, u);
        root_is_a_root(forest@, v);
        assert(forest.root(m.child) == m.child);
    }
}

/// **Two nodes are connected where one root stands for both**, and asking changes no
/// answer.
pub proof fn asking_changes_no_answer(
    asked: &mut Dsu,
    found: &mut Dsu,
    u: NodeId,
    v: NodeId,
    yes: bool,
    root: NodeId,
    x: NodeId,
)
    requires
        old(asked).wf(),
        old(found).wf(),
        call_ensures(Dsu::connected, (asked, u, v), yes),
        call_ensures(Dsu::find, (found, u), root),
    ensures
        yes <==> old(asked).root(u) == old(asked).root(v),
        final(asked).root(x) == old(asked).root(x),
        final(found).root(x) == old(found).root(x),
        root <= u,
        old(found).root(root) == root,
        x != u && old(found).root(x) == old(found).root(u) ==> root <= x,
{
    root_is_a_root(found@, u);
    if found.root(x) == found.root(u) {
        lowest_id_wins(found@, u, x);
    }
}

} // verus!
