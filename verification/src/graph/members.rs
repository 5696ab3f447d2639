//! Listing a component.

use std::collections::HashSet;
use vstd::prelude::*;

use super::types::NodeId;

verus! {

broadcast use vstd::std_specs::hash::group_hash_axioms;

/// The answer to a membership query.
///
/// Two variants rather than a `Vec` plus a flag nobody checks: past the
/// percolation threshold a component is a large fraction of the graph, and
/// "here are 1000 of them" must not be mistakable for "here are all of them".
/// A caller that gets `Truncated` has learned something real (this node is in
/// a hub) and should ask the analytics path, not retry with a bigger cap.
#[derive(Debug, Clone, PartialEq, Eq)]
pub enum Members {
    /// Every member of the component. Includes the queried node and the root.
    Complete(Vec<NodeId>),
    /// Exactly `cap` members, all real, with at least one more not listed.
    Truncated(Vec<NodeId>),
}

impl Members {
    /// The listed nodes.
    pub open spec fn listed(&self) -> Seq<NodeId> {
        match self {
            Members::Complete(v) => v@,
            Members::Truncated(v) => v@,
        }
    }

    pub fn nodes(&self) -> (r: &Vec<NodeId>)
        ensures
            r@ == self.listed(),
    {
        match self {
            Members::Complete(v) => v,
            Members::Truncated(v) => v,
        }
    }

    pub fn into_nodes(self) -> (r: Vec<NodeId>)
        ensures
            r@ == self.listed(),
    {
        match self {
            Members::Complete(v) => v,
            Members::Truncated(v) => v,
        }
    }

    pub fn is_truncated(&self) -> (r: bool)
        ensures
            r == (self is Truncated),
    {
        match self {
            Members::Complete(_) => false,
            Members::Truncated(_) => true,
        }
    }
}

/// A capped, deduplicating downward traversal of a parent forest.
///
/// The visited set is not an optimisation. The same node can be offered by
/// several layers and by both levels of a scoped walk (an overlay element is
/// also reachable through the shared tree below it).
pub struct Walk {
    cap: usize,
    seen: HashSet<NodeId>,
    out: Vec<NodeId>,
    truncated: bool,
}

impl Walk {
    pub closed spec fn cap(&self) -> usize {
        self.cap
    }

    /// The nodes admitted, in order.
    pub closed spec fn admitted(&self) -> Seq<NodeId> {
        self.out@
    }

    /// Nodes offered: the admitted ones, and the first one there was no room
    /// for.
    pub closed spec fn offered(&self) -> Set<NodeId> {
        self.seen@
    }

    /// Whether a node was offered past the cap.
    pub closed spec fn is_full(&self) -> bool {
        self.truncated
    }

    /// Distinct nodes within the cap; past it, exactly the cap and one more
    /// that was offered.
    pub closed spec fn wf(&self) -> bool {
        &&& self.out@.no_duplicates()
        &&& self.out@.len() <= self.cap
        &&& forall|n: NodeId| self.out@.contains(n) ==> self.seen@.contains(n)
        &&& !self.truncated ==> forall|n: NodeId| self.seen@.contains(n) ==> self.out@.contains(n)
        &&& self.truncated ==> self.out@.len() == self.cap && exists|n: NodeId|
            self.seen@.contains(n) && !(#[trigger] self.out@.contains(n))
    }

    pub fn new(cap: usize) -> (w: Walk)
        ensures
            w.wf(),
            w.cap() == cap,
            w.admitted() == Seq::<NodeId>::empty(),
            w.offered() == Set::<NodeId>::empty(),
            !w.is_full(),
    {
        Walk { cap, seen: HashSet::new(), out: Vec::new(), truncated: false }
    }

    /// What a well-formed walk has.
    pub proof fn walk_facts(&self)
        requires
            self.wf(),
        ensures
            self.admitted().no_duplicates(),
            self.admitted().len() <= self.cap(),
            !self.is_full() ==> forall|n: NodeId|
                self.offered().contains(n) <==> #[trigger] self.admitted().contains(n),
            forall|n: NodeId| #[trigger]
                self.admitted().contains(n) ==> self.offered().contains(n),
            self.is_full() ==> self.admitted().len() == self.cap() && exists|n: NodeId|
                self.offered().contains(n) && !(#[trigger] self.admitted().contains(n)),
    {
    }

    /// Accept `n`, returning whether it should be expanded in turn.
    pub fn accept(&mut self, n: NodeId) -> (r: bool)
        requires
            old(self).wf(),
            !old(self).is_full(),
        ensures
            final(self).wf(),
            final(self).cap() == old(self).cap(),
            final(self).offered() == old(self).offered().insert(n),
            r == (!old(self).offered().contains(n) && old(self).admitted().len() < old(
                self,
            ).cap()),
            final(self).admitted() == (if r {
                old(self).admitted().push(n)
            } else {
                old(self).admitted()
            }),
            final(self).is_full() == (!old(self).offered().contains(n) && old(
                self,
            ).admitted().len() >= old(self).cap()),
    {
        if !self.seen.insert(n) {
            assert(self.seen@ =~= old(self).seen@);
            return false;
        }
        if self.out.len() >= self.cap {
            self.truncated = true;
            assert(self.seen@.contains(n) && !self.out@.contains(n));
            return false;
        }
        self.out.push(n);
        proof {
            let was = old(self).out@;
            assert forall|m: NodeId| #[trigger] self.out@.contains(m) <==> was.contains(m) || m
                == n by {
                if was.contains(m) {
                    assert(self.out@[was.index_of(m)] == m);
                }
                if m == n {
                    assert(self.out@[was.len() as int] == n);
                }
                if self.out@.contains(m) {
                    let i = self.out@.index_of(m);
                    if i < was.len() {
                        assert(was[i] == m);
                    }
                }
            }
        }
        true
    }

    /// Whether a node was offered past the cap.
    pub fn truncated(&self) -> (r: bool)
        ensures
            r == self.is_full(),
    {
        self.truncated
    }

    /// How many children of one node are worth asking for: one more than fits.
    pub open spec fn limit_spec(&self) -> usize {
        if self.cap() < usize::MAX {
            (self.cap() + 1) as usize
        } else {
            usize::MAX
        }
    }

    pub fn child_limit(&self) -> (r: usize)
        ensures
            r == self.limit_spec(),
    {
        self.cap.saturating_add(1)
    }

    pub fn admitted_nodes(&self) -> (r: &Vec<NodeId>)
        ensures
            r@ == self.admitted(),
    {
        &self.out
    }

    pub fn finish(self, truncated: bool) -> (m: Members)
        ensures
            m.listed() == self.admitted(),
            m is Truncated == (self.is_full() || truncated),
    {
        if self.truncated || truncated {
            Members::Truncated(self.out)
        } else {
            Members::Complete(self.out)
        }
    }
}

} // verus!
