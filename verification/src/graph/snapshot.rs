//! A forest collected in the heap.

use vstd::prelude::*;

use super::dsu::pairs_descend;
use super::sink::{SinkEvent, SnapshotSink};
use super::types::{NodeId, ScopeId};

verus! {

/// A consistent point-in-time capture of the whole forest, suitable for
/// Puffin serialization and startup hydration.
#[derive(Debug, Clone)]
pub struct ForestSnapshot {
    pub global: Vec<(NodeId, NodeId)>,
    pub scopes: Vec<(ScopeId, Vec<(NodeId, NodeId)>)>,
}

/// The pairs of one scope's overlay.
pub ghost struct ScopePairs {
    pub scope: ScopeId,
    pub pairs: Seq<(NodeId, NodeId)>,
}

/// What a [`ForestSnapshot`] holds.
#[verifier::ext_equal]
pub ghost struct SnapshotView {
    pub global: Seq<(NodeId, NodeId)>,
    pub scopes: Seq<ScopePairs>,
}

pub open spec fn scope_pairs_view(s: (ScopeId, Vec<(NodeId, NodeId)>)) -> ScopePairs {
    ScopePairs { scope: s.0, pairs: s.1@ }
}

impl View for ForestSnapshot {
    type V = SnapshotView;

    open spec fn view(&self) -> SnapshotView {
        SnapshotView {
            global: self.global@,
            scopes: self.scopes@.map_values(
                |s: (ScopeId, Vec<(NodeId, NodeId)>)| scope_pairs_view(s),
            ),
        }
    }
}

impl SnapshotView {
    /// No pair points a node at a larger id, as in every snapshot of a forest.
    pub open spec fn canonical(self) -> bool {
        &&& pairs_descend(self.global)
        &&& forall|i: int| 0 <= i < self.scopes.len() ==> pairs_descend(
            (#[trigger] self.scopes[i]).pairs,
        )
    }
}

fn check_pairs_descend(pairs: &Vec<(NodeId, NodeId)>) -> (r: bool)
    ensures
        r == pairs_descend(pairs@),
{
    let mut i: usize = 0;
    while i < pairs.len()
        invariant
            i <= pairs.len(),
            forall|j: int| 0 <= j < i ==> (#[trigger] pairs@[j]).1 <= pairs@[j].0,
        decreases pairs.len() - i,
    {
        if pairs[i].1 > pairs[i].0 {
            return false;
        }
        i += 1;
    }
    true
}

impl ForestSnapshot {
    /// Whether no pair points a node at a larger id. True of every snapshot of
    /// a forest; bytes from elsewhere may decode to one that is not.
    pub fn is_canonical(&self) -> (r: bool)
        ensures
            r == self@.canonical(),
    {
        if !check_pairs_descend(&self.global) {
            return false;
        }
        let mut i: usize = 0;
        while i < self.scopes.len()
            invariant
                i <= self.scopes.len(),
                pairs_descend(self.global@),
                forall|j: int| 0 <= j < i ==> pairs_descend((#[trigger] self@.scopes[j]).pairs),
            decreases self.scopes.len() - i,
        {
            let ok: bool = check_pairs_descend(&self.scopes[i].1);
            assert(self@.scopes[i as int].pairs == self.scopes@[i as int].1@);
            if !ok {
                return false;
            }
            i += 1;
        }
        true
    }
}

/// A collection in progress: what is complete, and the scope still open.
pub ghost struct Collected {
    pub global: Seq<(NodeId, NodeId)>,
    pub scopes: Seq<ScopePairs>,
    pub open: Option<ScopePairs>,
}

/// What collecting `events` gives.
pub open spec fn collected(events: Seq<SinkEvent>) -> Collected
    decreases events.len(),
{
    if events.len() == 0 {
        Collected { global: Seq::empty(), scopes: Seq::empty(), open: None }
    } else {
        collect_step(collected(events.drop_last()), events.last())
    }
}

pub open spec fn collect_step(c: Collected, event: SinkEvent) -> Collected {
    match event {
        SinkEvent::Shared { node, root } => Collected { global: c.global.push((node, root)), ..c },
        SinkEvent::ScopeStart { scope } => Collected {
            open: Some(ScopePairs { scope, pairs: Seq::empty() }),
            ..c
        },
        SinkEvent::Overlay { node, root } => match c.open {
            Some(o) => Collected {
                open: Some(ScopePairs { pairs: o.pairs.push((node, root)), ..o }),
                ..c
            },
            None => c,
        },
        SinkEvent::Registry { root, scope } => c,
        SinkEvent::ScopeEnd { scope } => match c.open {
            Some(o) => if o.pairs.len() == 0 {
                Collected { open: None, ..c }
            } else {
                Collected { scopes: c.scopes.push(o), open: None, ..c }
            },
            None => c,
        },
    }
}

/// Collects a stream back into a [`ForestSnapshot`] (the RAM-mode path).
pub struct SnapshotCollector {
    global: Vec<(NodeId, NodeId)>,
    scopes: Vec<(ScopeId, Vec<(NodeId, NodeId)>)>,
    open: Option<(ScopeId, Vec<(NodeId, NodeId)>)>,
    events: Ghost<Seq<SinkEvent>>,
}

impl SnapshotCollector {
    pub fn new() -> (c: SnapshotCollector)
        ensures
            c.wf(),
            c.received() == Seq::<SinkEvent>::empty(),
    {
        let c = SnapshotCollector {
            global: Vec::new(),
            scopes: Vec::new(),
            open: None,
            events: Ghost(Seq::empty()),
        };
        assert(c.scope_views() =~= Seq::empty());
        c
    }

    closed spec fn scope_views(&self) -> Seq<ScopePairs> {
        self.scopes@.map_values(|s: (ScopeId, Vec<(NodeId, NodeId)>)| scope_pairs_view(s))
    }

    closed spec fn open_view(&self) -> Option<ScopePairs> {
        match self.open {
            Some(s) => Some(scope_pairs_view(s)),
            None => None,
        }
    }

    pub fn into_snapshot(self) -> (s: ForestSnapshot)
        requires
            self.wf(),
        ensures
            s@.global == collected(self.received()).global,
            s@.scopes == collected(self.received()).scopes,
    {
        ForestSnapshot { global: self.global, scopes: self.scopes }
    }
}

impl SnapshotSink for SnapshotCollector {
    type Setup = ();

    open spec fn setup(&self) -> () {
        ()
    }

    closed spec fn received(&self) -> Seq<SinkEvent> {
        self.events@
    }

    closed spec fn wf(&self) -> bool {
        let c = collected(self.events@);
        &&& c.global == self.global@
        &&& c.scopes == self.scope_views()
        &&& c.open == self.open_view()
    }

    fn shared_pair(&mut self, node: NodeId, root: NodeId) {
        self.global.push((node, root));
        proof {
            self.events@ = self.events@.push(SinkEvent::Shared { node, root });
            assert(self.events@.drop_last() =~= old(self).events@);
        }
    }

    fn overlay_pair(&mut self, node: NodeId, root: NodeId) {
        if let Some(open) = &mut self.open {
            open.1.push((node, root));
        }
        proof {
            self.events@ = self.events@.push(SinkEvent::Overlay { node, root });
            assert(self.events@.drop_last() =~= old(self).events@);
        }
    }

    fn scope_start(&mut self, scope: ScopeId) {
        self.open = Some((scope, Vec::new()));
        proof {
            self.events@ = self.events@.push(SinkEvent::ScopeStart { scope });
            assert(self.events@.drop_last() =~= old(self).events@);
        }
    }

    fn scope_end(&mut self, scope: ScopeId) {
        if let Some(open) = self.open.take() {
            if open.1.len() > 0 {
                self.scopes.push(open);
            }
        }
        proof {
            self.events@ = self.events@.push(SinkEvent::ScopeEnd { scope });
            assert(self.events@.drop_last() =~= old(self).events@);
            if old(self).open is Some && old(self).open->Some_0.1.len() > 0 {
                assert(self.scope_views() =~= old(self).scope_views().push(
                    scope_pairs_view(old(self).open->Some_0),
                ));
            }
        }
    }

    fn registry_entry(&mut self, root: NodeId, scope: ScopeId) {
        proof {
            self.events@ = self.events@.push(SinkEvent::Registry { root, scope });
            assert(self.events@.drop_last() =~= old(self).events@);
        }
    }
}

/// **A snapshot is canonical where every pair points down**: no pair of the shared
/// tier or of a scope points a node at a larger id.
pub proof fn canonical_pairs_point_down(s: SnapshotView, scope: int, i: int)
    requires
        s.canonical(),
    ensures
        0 <= i < s.global.len() ==> s.global[i].1 <= s.global[i].0,
        0 <= scope < s.scopes.len() && 0 <= i < s.scopes[scope].pairs.len()
            ==> s.scopes[scope].pairs[i].1 <= s.scopes[scope].pairs[i].0,
{
    if 0 <= scope < s.scopes.len() {
        assert(pairs_descend(s.scopes[scope].pairs));
    }
}

/// **A stream is collected in order**: a shared pair joins the shared ones, a pair
/// of a scope the scope that is open, and a scope is kept when it ends, unless
/// it is empty.
pub proof fn a_stream_is_collected_in_order(
    events: Seq<SinkEvent>,
    node: NodeId,
    root: NodeId,
    scope: ScopeId,
)
    ensures
        ({
            let c = collected(events);
            let shared = collected(events.push(SinkEvent::Shared { node, root }));
            let start = collected(events.push(SinkEvent::ScopeStart { scope }));
            let pair = collected(events.push(SinkEvent::Overlay { node, root }));
            let end = collected(events.push(SinkEvent::ScopeEnd { scope }));
            &&& shared.global == c.global.push((node, root)) && shared.scopes == c.scopes
                && shared.open == c.open
            &&& start.open is Some && start.open->Some_0.scope == scope
                && start.open->Some_0.pairs.len() == 0 && start.global == c.global && start.scopes
                == c.scopes
            &&& pair.global == c.global && pair.scopes == c.scopes
            &&& c.open is Some ==> pair.open is Some && pair.open->Some_0.scope
                == c.open->Some_0.scope && pair.open->Some_0.pairs == c.open->Some_0.pairs.push(
                (node, root),
            )
            &&& end.global == c.global && end.open is None
            &&& end.scopes == if c.open is Some && c.open->Some_0.pairs.len() > 0 {
                c.scopes.push(c.open->Some_0)
            } else {
                c.scopes
            }
        }),
{
    assert(events.push(SinkEvent::Shared { node, root }).drop_last() =~= events);
    assert(events.push(SinkEvent::ScopeStart { scope }).drop_last() =~= events);
    assert(events.push(SinkEvent::Overlay { node, root }).drop_last() =~= events);
    assert(events.push(SinkEvent::ScopeEnd { scope }).drop_last() =~= events);
}

} // verus!
