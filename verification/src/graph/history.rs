//! What a sequence of edge events means: connectivity over the edges a scope
//! can see.

use vstd::prelude::*;

use super::dsu::{higher, lower};
use super::scoped::joined;
use super::types::{
    an_edge_is_seen_by_its_audience, EdgeEvent, NodeId, ScopeId, Visibility,
};

verus! {

/// Whether `scope` sees the edge `event` carries.
pub open spec fn visible(event: EdgeEvent, scope: ScopeId) -> bool {
    match event.visibility.audience() {
        None => true,
        Some(scopes) => scopes.contains(scope),
    }
}

/// Whether some event visible to `scope` joins `a` and `b` directly.
pub open spec fn adjacent(
    events: Seq<EdgeEvent>,
    scope: ScopeId,
    a: NodeId,
    b: NodeId,
) -> bool {
    exists|i: int| 0 <= i < events.len() && edge_between(#[trigger] events[i], scope, a, b)
}

pub open spec fn edge_between(event: EdgeEvent, scope: ScopeId, a: NodeId, b: NodeId) -> bool {
    visible(event, scope) && ((event.src == a && event.dst == b) || (event.src == b && event.dst
        == a))
}

/// `path` walks visible edges.
pub open spec fn is_path(events: Seq<EdgeEvent>, scope: ScopeId, path: Seq<NodeId>) -> bool {
    &&& path.len() > 0
    &&& forall|i: int|
        0 <= i < path.len() - 1 ==> #[trigger] adjacent(events, scope, path[i], path[i + 1])
}

/// Whether `scope` sees `x` and `y` in one component of `G_global ∪ G_scope`.
pub open spec fn connected_by(
    events: Seq<EdgeEvent>,
    scope: ScopeId,
    x: NodeId,
    y: NodeId,
) -> bool {
    exists|path: Seq<NodeId>| #[trigger]
        is_path(events, scope, path) && path.first() == x && path.last() == y
}

/// The representative of `x` after `events`, joining one visible edge at a
/// time.
pub open spec fn root_after(events: Seq<EdgeEvent>, scope: ScopeId, x: NodeId) -> NodeId
    decreases events.len(),
{
    if events.len() == 0 {
        x
    } else {
        let before = events.drop_last();
        let e = events.last();
        if visible(e, scope) {
            joined(
                root_after(before, scope, x),
                root_after(before, scope, e.src),
                root_after(before, scope, e.dst),
            )
        } else {
            root_after(before, scope, x)
        }
    }
}

proof fn path_of_one(events: Seq<EdgeEvent>, scope: ScopeId, x: NodeId)
    ensures
        connected_by(events, scope, x, x),
{
    let path = seq![x];
    assert(is_path(events, scope, path));
    assert(path.first() == x && path.last() == x);
}

proof fn path_of_two(events: Seq<EdgeEvent>, scope: ScopeId, x: NodeId, y: NodeId)
    requires
        adjacent(events, scope, x, y),
    ensures
        connected_by(events, scope, x, y),
{
    let path = seq![x, y];
    assert(is_path(events, scope, path));
    assert(path.first() == x && path.last() == y);
}

proof fn adjacency_is_symmetric(events: Seq<EdgeEvent>, scope: ScopeId, x: NodeId, y: NodeId)
    requires
        adjacent(events, scope, x, y),
    ensures
        adjacent(events, scope, y, x),
{
    let i = choose|i: int| 0 <= i < events.len() && edge_between(#[trigger] events[i], scope, x, y);
    assert(edge_between(events[i], scope, y, x));
}

/// Connectivity is symmetric.
pub proof fn connectivity_is_symmetric(
    events: Seq<EdgeEvent>,
    scope: ScopeId,
    x: NodeId,
    y: NodeId,
)
    requires
        connected_by(events, scope, x, y),
    ensures
        connected_by(events, scope, y, x),
{
    let path = choose|path: Seq<NodeId>| #[trigger]
        is_path(events, scope, path) && path.first() == x && path.last() == y;
    let back = path.reverse();
    assert forall|i: int| 0 <= i < back.len() - 1 implies #[trigger] adjacent(
        events,
        scope,
        back[i],
        back[i + 1],
    ) by {
        let j = path.len() - 2 - i;
        assert(adjacent(events, scope, path[j], path[j + 1]));
        adjacency_is_symmetric(events, scope, path[j], path[j + 1]);
        assert(back[i] == path[j + 1] && back[i + 1] == path[j]);
    }
    assert(is_path(events, scope, back));
    assert(back.first() == y && back.last() == x);
}

/// Connectivity is transitive.
pub proof fn connectivity_is_transitive(
    events: Seq<EdgeEvent>,
    scope: ScopeId,
    x: NodeId,
    y: NodeId,
    z: NodeId,
)
    requires
        connected_by(events, scope, x, y),
        connected_by(events, scope, y, z),
    ensures
        connected_by(events, scope, x, z),
{
    let p = choose|path: Seq<NodeId>| #[trigger]
        is_path(events, scope, path) && path.first() == x && path.last() == y;
    let q = choose|path: Seq<NodeId>| #[trigger]
        is_path(events, scope, path) && path.first() == y && path.last() == z;
    let r = p + q.drop_first();
    assert forall|i: int| 0 <= i < r.len() - 1 implies #[trigger] adjacent(
        events,
        scope,
        r[i],
        r[i + 1],
    ) by {
        if i < p.len() - 1 {
            assert(adjacent(events, scope, p[i], p[i + 1]));
        } else {
            let j = i - (p.len() - 1);
            assert(adjacent(events, scope, q[j], q[j + 1]));
            assert(r[i] == q[j]);
            assert(r[i + 1] == q[j + 1]);
        }
    }
    assert(is_path(events, scope, r));
    assert(r.first() == x && r.last() == z);
}

/// A further event disconnects nothing.
pub proof fn connectivity_only_grows(
    events: Seq<EdgeEvent>,
    event: EdgeEvent,
    scope: ScopeId,
    x: NodeId,
    y: NodeId,
)
    requires
        connected_by(events, scope, x, y),
    ensures
        connected_by(events.push(event), scope, x, y),
{
    let more = events.push(event);
    let path = choose|path: Seq<NodeId>| #[trigger]
        is_path(events, scope, path) && path.first() == x && path.last() == y;
    assert forall|i: int| 0 <= i < path.len() - 1 implies #[trigger] adjacent(
        more,
        scope,
        path[i],
        path[i + 1],
    ) by {
        assert(adjacent(events, scope, path[i], path[i + 1]));
        let k = choose|k: int|
            0 <= k < events.len() && edge_between(
                #[trigger] events[k],
                scope,
                path[i],
                path[i + 1],
            );
        assert(more[k] == events[k]);
    }
    assert(is_path(more, scope, path));
}

proof fn adjacent_nodes_share_a_root(
    events: Seq<EdgeEvent>,
    scope: ScopeId,
    x: NodeId,
    y: NodeId,
)
    requires
        adjacent(events, scope, x, y),
    ensures
        root_after(events, scope, x) == root_after(events, scope, y),
    decreases events.len(),
{
    let i = choose|i: int| 0 <= i < events.len() && edge_between(#[trigger] events[i], scope, x, y);
    if i < events.len() - 1 {
        let before = events.drop_last();
        assert(before[i] == events[i]);
        assert(adjacent(before, scope, x, y));
        adjacent_nodes_share_a_root(before, scope, x, y);
    }
}

proof fn path_ends_share_a_root(events: Seq<EdgeEvent>, scope: ScopeId, path: Seq<NodeId>)
    requires
        is_path(events, scope, path),
    ensures
        root_after(events, scope, path.first()) == root_after(events, scope, path.last()),
    decreases path.len(),
{
    if path.len() > 1 {
        let front = path.drop_last();
        assert forall|i: int| 0 <= i < front.len() - 1 implies #[trigger] adjacent(
            events,
            scope,
            front[i],
            front[i + 1],
        ) by {
            assert(adjacent(events, scope, path[i], path[i + 1]));
        }
        path_ends_share_a_root(events, scope, front);
        let n = path.len();
        assert(adjacent(events, scope, path[n - 2], path[n - 2 + 1]));
        adjacent_nodes_share_a_root(events, scope, path[n - 2], path[n - 1]);
    }
}

proof fn root_is_connected(events: Seq<EdgeEvent>, scope: ScopeId, x: NodeId)
    ensures
        connected_by(events, scope, x, root_after(events, scope, x)),
        root_after(events, scope, x) <= x,
    decreases events.len(),
{
    if events.len() == 0 {
        path_of_one(events, scope, x);
    } else {
        let before = events.drop_last();
        let e = events.last();
        assert(events =~= before.push(e));
        let r = root_after(before, scope, x);
        let a = root_after(before, scope, e.src);
        let b = root_after(before, scope, e.dst);
        root_is_connected(before, scope, x);
        connectivity_only_grows(before, e, scope, x, r);
        if visible(e, scope) && r == higher(a, b) {
            root_is_connected(before, scope, e.src);
            root_is_connected(before, scope, e.dst);
            connectivity_only_grows(before, e, scope, e.src, a);
            connectivity_only_grows(before, e, scope, e.dst, b);
            assert(edge_between(events[events.len() - 1], scope, e.src, e.dst));
            assert(adjacent(events, scope, e.src, e.dst));
            path_of_two(events, scope, e.src, e.dst);
            connectivity_is_symmetric(events, scope, e.src, a);
            connectivity_is_transitive(events, scope, a, e.src, e.dst);
            connectivity_is_transitive(events, scope, a, e.dst, b);
            connectivity_is_symmetric(events, scope, a, b);
            if r == a {
                if lower(a, b) == b {
                    connectivity_is_transitive(events, scope, x, a, b);
                }
            } else {
                if lower(a, b) == a {
                    connectivity_is_transitive(events, scope, x, b, a);
                }
            }
        }
    }
}

/// **What a scope's representative is**: the lowest node id of the component,
/// over the edges that are global or the scope's own, and two nodes have the
/// same one exactly when they are connected.
pub proof fn root_is_the_lowest_connected_id(
    events: Seq<EdgeEvent>,
    scope: ScopeId,
    x: NodeId,
    y: NodeId,
)
    ensures
        root_after(events, scope, x) == root_after(events, scope, y) <==> connected_by(
            events,
            scope,
            x,
            y,
        ),
        connected_by(events, scope, x, root_after(events, scope, x)),
        connected_by(events, scope, x, y) ==> root_after(events, scope, x) <= y,
{
    root_is_connected(events, scope, x);
    root_is_connected(events, scope, y);
    if root_after(events, scope, x) == root_after(events, scope, y) {
        connectivity_is_symmetric(events, scope, y, root_after(events, scope, y));
        connectivity_is_transitive(events, scope, x, root_after(events, scope, x), y);
    }
    if connected_by(events, scope, x, y) {
        let path = choose|path: Seq<NodeId>| #[trigger]
            is_path(events, scope, path) && path.first() == x && path.last() == y;
        path_ends_share_a_root(events, scope, path);
    }
}

/// Representatives only ever decrease as events arrive.
pub proof fn roots_only_decrease(
    events: Seq<EdgeEvent>,
    event: EdgeEvent,
    scope: ScopeId,
    x: NodeId,
)
    ensures
        root_after(events.push(event), scope, x) <= root_after(events, scope, x),
{
    assert(events.push(event).drop_last() =~= events);
}

/// An edge a scope does not see changes nothing it is told.
pub proof fn invisible_edges_change_nothing(
    events: Seq<EdgeEvent>,
    event: EdgeEvent,
    scope: ScopeId,
    x: NodeId,
)
    requires
        !visible(event, scope),
    ensures
        root_after(events.push(event), scope, x) == root_after(events, scope, x),
{
    assert(events.push(event).drop_last() =~= events);
}

proof fn same_events_connect_alike(
    a: Seq<EdgeEvent>,
    b: Seq<EdgeEvent>,
    scope: ScopeId,
    x: NodeId,
    y: NodeId,
)
    requires
        forall|e: EdgeEvent| a.contains(e) ==> b.contains(e),
        connected_by(a, scope, x, y),
    ensures
        connected_by(b, scope, x, y),
{
    let path = choose|path: Seq<NodeId>| #[trigger]
        is_path(a, scope, path) && path.first() == x && path.last() == y;
    assert forall|i: int| 0 <= i < path.len() - 1 implies #[trigger] adjacent(
        b,
        scope,
        path[i],
        path[i + 1],
    ) by {
        assert(adjacent(a, scope, path[i], path[i + 1]));
        let k = choose|k: int|
            0 <= k < a.len() && edge_between(#[trigger] a[k], scope, path[i], path[i + 1]);
        assert(a.contains(a[k]));
        let j = b.index_of(a[k]);
        assert(edge_between(b[j], scope, path[i], path[i + 1]));
    }
    assert(is_path(b, scope, path));
}

/// **Merges commute**: the answers depend on which edges were applied, not on
/// the order they arrived in nor on how often, so partitions may interleave
/// freely.
pub proof fn order_does_not_matter(
    a: Seq<EdgeEvent>,
    b: Seq<EdgeEvent>,
    scope: ScopeId,
    x: NodeId,
)
    requires
        forall|e: EdgeEvent| a.contains(e) <==> b.contains(e),
    ensures
        root_after(a, scope, x) == root_after(b, scope, x),
{
    let ra = root_after(a, scope, x);
    let rb = root_after(b, scope, x);
    root_is_the_lowest_connected_id(a, scope, x, rb);
    root_is_the_lowest_connected_id(b, scope, x, ra);
    same_events_connect_alike(a, b, scope, x, ra);
    same_events_connect_alike(b, a, scope, x, rb);
}

/// **Who sees an edge**: every scope, where the edge is global, lists no scope or
/// lists scope 0, and otherwise the scopes it lists.
pub proof fn an_edge_is_seen_by_those_it_lists(event: EdgeEvent, scope: ScopeId)
    ensures
        visible(event, scope) <==> match event.visibility {
            Visibility::Global => true,
            Visibility::Scoped(l) => l@.len() == 0 || l@.contains(0) || l@.contains(scope),
        },
{
    an_edge_is_seen_by_its_audience(event.visibility);
    if let Visibility::Scoped(l) = event.visibility {
        if l@.contains(0) {
            let i = l@.index_of(0);
            assert(l@[i] == 0);
        }
    }
}

/// **An edge connects its ends** for every scope that sees it, in either
/// direction, whatever else was applied before or after it.
pub proof fn an_edge_connects_its_ends(events: Seq<EdgeEvent>, scope: ScopeId, i: int)
    requires
        0 <= i < events.len(),
        visible(events[i], scope),
    ensures
        connected_by(events, scope, events[i].src, events[i].dst),
        connected_by(events, scope, events[i].dst, events[i].src),
        root_after(events, scope, events[i].src) == root_after(events, scope, events[i].dst),
        root_after(events, scope, events[i].src) <= events[i].src,
        root_after(events, scope, events[i].src) <= events[i].dst,
{
    let a = events[i].src;
    let b = events[i].dst;
    assert(edge_between(events[i], scope, a, b));
    assert(edge_between(events[i], scope, b, a));
    path_of_two(events, scope, a, b);
    path_of_two(events, scope, b, a);
    path_of_one(events, scope, a);
    root_is_the_lowest_connected_id(events, scope, a, b);
    root_is_the_lowest_connected_id(events, scope, a, a);
}

/// **Nothing but visible edges connects**: where no edge that a scope sees leaves
/// a set of nodes, the scope sees no node of the set connected to one outside,
/// and the representative of a node of the set lies in it.
pub proof fn nothing_else_connects(
    events: Seq<EdgeEvent>,
    scope: ScopeId,
    nodes: Set<NodeId>,
    x: NodeId,
    y: NodeId,
)
    requires
        forall|i: int|
            0 <= i < events.len() && visible(#[trigger] events[i], scope) ==> nodes.contains(
                events[i].src,
            ) == nodes.contains(events[i].dst),
        nodes.contains(x),
    ensures
        connected_by(events, scope, x, y) ==> nodes.contains(y),
        nodes.contains(root_after(events, scope, x)),
{
    if connected_by(events, scope, x, y) {
        let path = choose|path: Seq<NodeId>| #[trigger]
            is_path(events, scope, path) && path.first() == x && path.last() == y;
        a_path_stays_inside(events, scope, nodes, path, path.len() - 1);
    }
    let r = root_after(events, scope, x);
    root_is_the_lowest_connected_id(events, scope, x, r);
    let path = choose|path: Seq<NodeId>| #[trigger]
        is_path(events, scope, path) && path.first() == x && path.last() == r;
    a_path_stays_inside(events, scope, nodes, path, path.len() - 1);
}

proof fn a_path_stays_inside(
    events: Seq<EdgeEvent>,
    scope: ScopeId,
    nodes: Set<NodeId>,
    path: Seq<NodeId>,
    n: int,
)
    requires
        forall|i: int|
            0 <= i < events.len() && visible(#[trigger] events[i], scope) ==> nodes.contains(
                events[i].src,
            ) == nodes.contains(events[i].dst),
        is_path(events, scope, path),
        0 <= n < path.len(),
        nodes.contains(path[0]),
    ensures
        nodes.contains(path[n]),
    decreases n,
{
    if n > 0 {
        a_path_stays_inside(events, scope, nodes, path, n - 1);
        assert(adjacent(events, scope, path[n - 1], path[n - 1 + 1]));
        let k = choose|k: int|
            0 <= k < events.len() && edge_between(#[trigger] events[k], scope, path[n - 1], path[n]);
        assert(visible(events[k], scope));
    }
}

} // verus!
