//! Receiving a forest as an ordered stream.

use vstd::prelude::*;

use super::types::{NodeId, ScopeId};

verus! {

/// One step of the stream a forest is handed out as.
pub ghost enum SinkEvent {
    Shared { node: NodeId, root: NodeId },
    ScopeStart { scope: ScopeId },
    Overlay { node: NodeId, root: NodeId },
    Registry { root: NodeId, scope: ScopeId },
    ScopeEnd { scope: ScopeId },
}

/// The registry entries among `events`, in order.
pub open spec fn registry_events(events: Seq<SinkEvent>) -> Seq<(NodeId, ScopeId)>
    decreases events.len(),
{
    if events.len() == 0 {
        Seq::empty()
    } else {
        let before = registry_events(events.drop_last());
        match events.last() {
            SinkEvent::Registry { root, scope } => before.push((root, scope)),
            _ => before,
        }
    }
}

/// Entries of two parts of a stream.
pub proof fn registry_events_join(a: Seq<SinkEvent>, b: Seq<SinkEvent>)
    ensures
        registry_events(a + b) == registry_events(a) + registry_events(b),
    decreases b.len(),
{
    if b.len() == 0 {
        assert(a + b =~= a);
        assert(registry_events(a) + registry_events(b) =~= registry_events(a));
    } else {
        assert((a + b).drop_last() =~= a + b.drop_last());
        assert((a + b).last() == b.last());
        registry_events_join(a, b.drop_last());
        assert(registry_events(a + b) =~= registry_events(a) + registry_events(b));
    }
}

/// Receives a compacted forest as an ordered *stream*, so compaction never
/// has to materialize the state it is writing.
///
/// **Emission order is part of the contract**: every shared pair in ascending
/// node order, then each scope in ascending scope order with its overlay
/// pairs in ascending node order. Sinks can therefore write the fixed-stride
/// sorted tables the on-disk format wants with no buffering and no sort.
pub trait SnapshotSink {
    /// What a sink is set up with.
    type Setup;

    /// What the sink was set up with; receiving does not change it.
    spec fn setup(&self) -> Self::Setup;

    /// What was received so far.
    spec fn received(&self) -> Seq<SinkEvent>;

    spec fn wf(&self) -> bool;

    /// A composed shared-tier pair; only emitted when `root != node`.
    fn shared_pair(&mut self, node: NodeId, root: NodeId)
        requires
            old(self).wf(),
        ensures
            final(self).wf(),
            final(self).setup() == old(self).setup(),
            final(self).received() == old(self).received().push(SinkEvent::Shared { node, root }),
    ;

    /// A composed overlay pair for the most recently opened scope.
    fn overlay_pair(&mut self, node: NodeId, root: NodeId)
        requires
            old(self).wf(),
        ensures
            final(self).wf(),
            final(self).setup() == old(self).setup(),
            final(self).received() == old(self).received().push(SinkEvent::Overlay { node, root }),
    ;

    /// Opens `scope`. A scope may turn out to contribute no pairs at all, so
    /// sinks that must not emit empty groups should buffer and discard in
    /// [`SnapshotSink::scope_end`].
    fn scope_start(&mut self, scope: ScopeId)
        requires
            old(self).wf(),
        ensures
            final(self).wf(),
            final(self).setup() == old(self).setup(),
            final(self).received() == old(self).received().push(SinkEvent::ScopeStart { scope }),
    ;

    fn scope_end(&mut self, scope: ScopeId)
        requires
            old(self).wf(),
        ensures
            final(self).wf(),
            final(self).setup() == old(self).setup(),
            final(self).received() == old(self).received().push(SinkEvent::ScopeEnd { scope }),
    ;

    /// One `shared root -> scope` reverse-index entry per endpoint of each
    /// emitted overlay pair, already resolved to the *live* shared root.
    /// Grouped by scope, so a sink wanting root order must sort.
    fn registry_entry(&mut self, root: NodeId, scope: ScopeId)
        requires
            old(self).wf(),
        ensures
            final(self).wf(),
            final(self).setup() == old(self).setup(),
            final(self).received() == old(self).received().push(
                SinkEvent::Registry { root, scope },
            ),
    ;
}

} // verus!
