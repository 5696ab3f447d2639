//! The concurrent maps a [`Dsu`](super::dsu::Dsu) keeps its links in.
//!
//! `DashMap` is opaque to the verifier, so what a map holds gets a name here
//! and every operation used on it says what it does to that name.

use dashmap::DashMap;
use smallvec::SmallVec;
use std::hash::RandomState;
use vstd::prelude::*;

use super::types::NodeId;

verus! {

/// `dashmap::DashMap`, carried as an opaque value.
#[verifier::external_type_specification]
#[verifier::external_body]
#[verifier::reject_recursive_types(K)]
#[verifier::reject_recursive_types(V)]
#[verifier::reject_recursive_types(S)]
pub struct ExDashMap<K, V, S>(DashMap<K, V, S>);

/// The `node -> parent` entries a link map holds.
pub uninterp spec fn link_entries(m: DashMap<NodeId, NodeId, RandomState>) -> Map<NodeId, NodeId>;

/// `DashMap::new`: a map with no entries.
#[verifier::external_body]
pub(crate) fn links_new() -> (m: DashMap<NodeId, NodeId, RandomState>)
    ensures
        (link_entries(m) == Map::<NodeId, NodeId>::empty()),
{
    DashMap::new()
}

/// `DashMap::get`: the value stored under `node`, if any.
#[verifier::external_body]
pub(crate) fn links_get(m: &DashMap<NodeId, NodeId, RandomState>, node: NodeId) -> (r: Option<NodeId>)
    ensures
        r == (if link_entries(*m).contains_key(node) {
            Some(link_entries(*m)[node])
        } else {
            None
        }),
{
    m.get(&node).map(|r| *r)
}

/// `DashMap::insert`: stores `parent` under `node`, replacing what was there.
#[verifier::external_body]
pub(crate) fn links_insert(
    m: &mut DashMap<NodeId, NodeId, RandomState>,
    node: NodeId,
    parent: NodeId,
)
    ensures
        link_entries(*final(m)) == link_entries(*old(m)).insert(node, parent),
{
    m.insert(node, parent);
}

/// `DashMap::len`: the number of entries.
#[verifier::external_body]
pub(crate) fn links_len(m: &DashMap<NodeId, NodeId, RandomState>) -> (n: usize)
    ensures
        n == link_entries(*m).dom().len(),
{
    m.len()
}

/// `DashMap::iter`, keeping the keys: every key once, in no particular order.
#[verifier::external_body]
pub(crate) fn links_keys(m: &DashMap<NodeId, NodeId, RandomState>) -> (keys: Vec<NodeId>)
    ensures
        keys@.no_duplicates(),
        keys@.to_set() == link_entries(*m).dom(),
{
    m.iter().map(|e| *e.key()).collect()
}

/// Roots absorbed into each parent, in the order they were absorbed.
///
/// Holds a `DashMap` whose values are `SmallVec`s; the list type cannot be
/// declared to the verifier on its own, so the whole map is held here.
#[verifier::external_body]
#[derive(Debug)]
pub struct ChildIndex {
    map: DashMap<NodeId, SmallVec<[NodeId; 2]>>,
}

/// What a child index holds: the list stored under each parent.
pub uninterp spec fn child_entries(m: ChildIndex) -> Map<NodeId, Seq<NodeId>>;

/// The list `edges` stores under `parent`; empty where it stores none.
pub open spec fn children_in(edges: Map<NodeId, Seq<NodeId>>, parent: NodeId) -> Seq<NodeId> {
    if edges.contains_key(parent) {
        edges[parent]
    } else {
        Seq::empty()
    }
}

/// `DashMap::new`: an index with no entries.
#[verifier::external_body]
pub(crate) fn children_new() -> (m: ChildIndex)
    ensures
        (child_entries(m) == Map::<NodeId, Seq<NodeId>>::empty()),
{
    ChildIndex { map: DashMap::new() }
}

/// `DashMap::entry` with `SmallVec::push`: appends `child` to the list stored
/// under `parent`, starting an empty list where there was none.
#[verifier::external_body]
pub(crate) fn children_push(m: &mut ChildIndex, parent: NodeId, child: NodeId)
    ensures
        child_entries(*final(m)) == child_entries(*old(m)).insert(
            parent,
            children_in(child_entries(*old(m)), parent).push(child),
        ),
{
    m.map.entry(parent).or_default().push(child);
}

/// `DashMap::get`: a copy of the list stored under `parent`.
#[verifier::external_body]
pub(crate) fn children_get(m: &ChildIndex, parent: NodeId) -> (r: Vec<NodeId>)
    ensures
        r@ == children_in(child_entries(*m), parent),
{
    m.map.get(&parent).map(|kids| kids.to_vec()).unwrap_or_default()
}

} // verus!
