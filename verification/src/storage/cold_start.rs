//! Recovery into the heap: a base and its deltas hydrated one after the other
//! give the state that the layers resolve to.

use vstd::prelude::*;

use super::base::{table_links, PuffinBase};
use super::codec::scopes_strict;
use super::layered::{climb, climbed, links_of, LayeredBase};
use super::round_trip::{pairs_for, pairs_for_is, sorted_tables_answer};
use super::stacking::{
    a_newer_layer_refines, clear_of, climb_descends, climb_stays, climbing_ends,
    keys_lead_elsewhere, layer_answers, stacked, stacks_have_no_self_links, well_stacked,
};
use crate::graph::base::{ascending, settled, step_up, valid_base, RoutingBase};
use crate::graph::dsu::{linked, root_of};
use crate::graph::scoped::{
    has_key, hydrated_overlay, lists_scope, pairs_register, ScopedForest,
};
use crate::graph::snapshot::{ScopePairs, SnapshotView};
use crate::graph::types::{NodeId, ScopeId};

verus! {

/// `t` is what the layer `b` holds.
pub open spec fn holds_tables(b: &PuffinBase, t: SnapshotView) -> bool {
    &&& b.shared_pairs() == t.global
    &&& forall|s: ScopeId| #[trigger] b.overlay_pairs(s) == pairs_for(t.scopes, s)
    &&& scopes_strict(t.scopes)
}

/// `ts` are the tables of the layers of `l`, oldest first.
pub open spec fn tables_of(l: &LayeredBase, ts: Seq<SnapshotView>) -> bool {
    &&& ts.len() == l.stack().len()
    &&& forall|i: int| 0 <= i < ts.len() ==> holds_tables(&*l.stack()[i], #[trigger] ts[i])
}

/// Each forest is the one before it hydrated with the next tables, and the
/// first is empty.
pub open spec fn hydrated_through(forests: Seq<ScopedForest>, ts: Seq<SnapshotView>) -> bool {
    &&& forests.len() == ts.len() + 1
    &&& forests[0].mem_is_fresh()
    &&& !forests[0].has_base()
    &&& forall|i: int| 0 <= i < ts.len() ==> #[trigger] one_hydrated(forests, ts, i)
}

pub open spec fn one_hydrated(
    forests: Seq<ScopedForest>,
    ts: Seq<SnapshotView>,
    i: int,
) -> bool {
    forests[i + 1].hydrated(&forests[i], ts[i])
}

/// What recording `pairs` changes: their keys lead where they say, and every
/// other node where it led.
proof fn linked_is(m: Map<NodeId, NodeId>, pairs: Seq<(NodeId, NodeId)>, k: NodeId)
    requires
        ascending(pairs),
        forall|i: int| 0 <= i < pairs.len() ==> (#[trigger] pairs[i]).1 < pairs[i].0,
    ensures
        linked(m, pairs).contains_key(k) <==> m.contains_key(k) || has_key(pairs, k),
        forall|i: int|
            0 <= i < pairs.len() && (#[trigger] pairs[i]).0 == k ==> linked(m, pairs)[k]
                == pairs[i].1,
        !has_key(pairs, k) && m.contains_key(k) ==> linked(m, pairs)[k] == m[k],
    decreases pairs.len(),
{
    if pairs.len() > 0 {
        let front = pairs.drop_last();
        let n = pairs.len() - 1;
        assert forall|i: int, j: int| 0 <= i < j < front.len() implies (#[trigger] front[i]).0
            < (#[trigger] front[j]).0 by {
            assert(pairs[i].0 < pairs[j].0);
        }
        assert forall|i: int| 0 <= i < front.len() implies (#[trigger] front[i]).1 < front[i].0 by {
            assert(pairs[i].1 < pairs[i].0);
        }
        linked_is(m, front, k);
        assert(pairs[n].1 < pairs[n].0);
        assert(has_key(pairs, k) <==> has_key(front, k) || pairs[n].0 == k) by {
            if has_key(pairs, k) {
                let a = choose|a: int| 0 <= a < pairs.len() && (#[trigger] pairs[a]).0 == k;
                if a < n {
                    assert(front[a].0 == k);
                }
            }
            if has_key(front, k) {
                let a = choose|a: int| 0 <= a < front.len() && (#[trigger] front[a]).0 == k;
                assert(pairs[a].0 == k);
            }
        }
        assert forall|i: int| 0 <= i < pairs.len() && (#[trigger] pairs[i]).0 == k implies linked(
            m,
            pairs,
        )[k] == pairs[i].1 by {
            if i < n {
                assert(pairs[i].0 < pairs[n].0);
                assert(front[i].0 == k);
            }
        }
    }
}

/// Recording a layer over links that know none of its nodes resolves through
/// the links and then through the layer.
proof fn a_recorded_layer_refines(
    m: Map<NodeId, NodeId>,
    pairs: Seq<(NodeId, NodeId)>,
    x: NodeId,
)
    requires
        ascending(pairs),
        forall|i: int| 0 <= i < pairs.len() ==> (#[trigger] pairs[i]).1 < pairs[i].0,
        forall|i: int|
            0 <= i < pairs.len() ==> !m.contains_key((#[trigger] pairs[i]).0) && !m.contains_key(
                pairs[i].1,
            ) && !has_key(pairs, pairs[i].1),
    ensures
        root_of(linked(m, pairs), x) == step_up(table_links(pairs), root_of(m, x)),
    decreases x,
{
    let u = linked(m, pairs);
    let links = table_links(pairs);
    sorted_tables_answer(pairs);
    linked_is(m, pairs, x);
    if m.contains_key(x) {
        assert(!has_key(pairs, x)) by {
            if has_key(pairs, x) {
                let a = choose|a: int| 0 <= a < pairs.len() && (#[trigger] pairs[a]).0 == x;
            }
        }
        assert(u[x] == m[x]);
        if m[x] < x {
            a_recorded_layer_refines(m, pairs, m[x]);
        } else if links.contains_key(x) {
            let a = choose|a: int| 0 <= a < pairs.len() && (#[trigger] pairs[a]).0 == x;
            assert(has_key(pairs, x));
        }
    } else if has_key(pairs, x) {
        let a = choose|a: int| 0 <= a < pairs.len() && (#[trigger] pairs[a]).0 == x;
        let v = pairs[a].1;
        assert(u[x] == v && v < x);
        assert(links[pairs[a].0] == v);
        linked_is(m, pairs, v);
        assert(!u.contains_key(v));
        assert(root_of(u, v) == v);
    } else {
        if links.contains_key(x) {
            let a = choose|a: int| 0 <= a < pairs.len() && (#[trigger] pairs[a]).0 == x;
            assert(has_key(pairs, x));
        }
    }
}

/// Links that resolve as the first `n` of `tables` do, and know their keys.
spec fn resolves_through(
    m: Map<NodeId, NodeId>,
    tables: Seq<Seq<(NodeId, NodeId)>>,
    n: int,
) -> bool {
    &&& forall|x: NodeId| #[trigger] root_of(m, x) == climb(links_of(tables.take(n)), 0, x)
    &&& forall|x: NodeId| #[trigger] m.contains_key(x) ==> in_some(tables, n, x)
}

spec fn in_some(tables: Seq<Seq<(NodeId, NodeId)>>, n: int, x: NodeId) -> bool {
    exists|i: int| 0 <= i < n && #[trigger] has_key(tables[i], x)
}

proof fn fewer_layers_stack(tables: Seq<Seq<(NodeId, NodeId)>>, n: int)
    requires
        stacked(tables),
        0 <= n <= tables.len(),
    ensures
        stacked(tables.take(n)),
{
    let low = tables.take(n);
    assert forall|i: int| 0 <= i < low.len() implies ascending(#[trigger] low[i]) by {
        assert(ascending(tables[i]));
    }
    assert forall|i: int, p: int| 0 <= i < low.len() && 0 <= p < low[i].len() implies (
    #[trigger] low[i][p]).1 < low[i][p].0 by {
        assert(tables[i][p].1 < tables[i][p].0);
    }
    assert forall|j: int, i: int, p: int|
        0 <= j < i < low.len() && 0 <= p < low[i].len() implies #[trigger] clear_of(
        low[j],
        low[i][p],
    ) by {
        assert(clear_of(tables[j], tables[i][p]));
    }
    assert forall|i: int, p: int| 0 <= i < low.len() && 0 <= p < low[i].len() implies !has_key(
        low[i],
        (#[trigger] low[i][p]).1,
    ) by {
        assert(!has_key(tables[i], tables[i][p].1));
    }
}

/// Recording the next layer resolves through one more.
proof fn recording_the_next_layer(
    m: Map<NodeId, NodeId>,
    tables: Seq<Seq<(NodeId, NodeId)>>,
    n: int,
)
    requires
        stacked(tables),
        0 <= n < tables.len(),
        resolves_through(m, tables, n),
    ensures
        resolves_through(linked(m, tables[n]), tables, n + 1),
{
    let pairs = tables[n];
    let u = linked(m, pairs);
    assert(ascending(pairs));
    assert forall|i: int| 0 <= i < pairs.len() implies (#[trigger] pairs[i]).1 < pairs[i].0 by {
        assert(tables[n][i].1 < tables[n][i].0);
    }
    assert forall|i: int| 0 <= i < pairs.len() implies !m.contains_key((#[trigger] pairs[i]).0)
        && !m.contains_key(pairs[i].1) && !has_key(pairs, pairs[i].1) by {
        assert(!has_key(tables[n], tables[n][i].1));
        if m.contains_key(pairs[i].0) {
            assert(in_some(tables, n, pairs[i].0));
            let j = choose|j: int| 0 <= j < n && #[trigger] has_key(tables[j], pairs[i].0);
            assert(clear_of(tables[j], tables[n][i]));
        }
        if m.contains_key(pairs[i].1) {
            assert(in_some(tables, n, pairs[i].1));
            let j = choose|j: int| 0 <= j < n && #[trigger] has_key(tables[j], pairs[i].1);
            assert(clear_of(tables[j], tables[n][i]));
        }
    }
    let low = tables.take(n);
    fewer_layers_stack(tables, n);
    stacks_have_no_self_links(low);
    assert(links_of(tables.take(n + 1)) =~= links_of(low).push(table_links(pairs)));
    assert forall|x: NodeId| #[trigger] root_of(u, x) == climb(
        links_of(tables.take(n + 1)),
        0,
        x,
    ) by {
        a_recorded_layer_refines(m, pairs, x);
        a_newer_layer_refines(links_of(low), table_links(pairs), x);
        assert(root_of(m, x) == climb(links_of(low), 0, x));
    }
    assert forall|x: NodeId| #[trigger] u.contains_key(x) implies in_some(tables, n + 1, x) by {
        linked_is(m, pairs, x);
        if m.contains_key(x) {
            assert(in_some(tables, n, x));
            let j = choose|j: int| 0 <= j < n && #[trigger] has_key(tables[j], x);
            assert(has_key(tables[j], x));
        } else {
            assert(has_key(tables[n], x));
        }
    }
}

proof fn other_scopes_hydrate_nothing(
    m: Map<NodeId, NodeId>,
    scopes: Seq<ScopePairs>,
    s: ScopeId,
)
    requires
        !lists_scope(scopes, s),
    ensures
        hydrated_overlay(m, scopes, s) == m,
    decreases scopes.len(),
{
    if scopes.len() > 0 {
        let front = scopes.drop_last();
        assert(scopes[scopes.len() - 1].scope != s);
        assert(!lists_scope(front, s)) by {
            if lists_scope(front, s) {
                let i = choose|i: int| 0 <= i < front.len() && (#[trigger] front[i]).scope == s;
                assert(scopes[i].scope == s);
            }
        }
        other_scopes_hydrate_nothing(m, front, s);
    }
}

/// Each scope's overlay is recorded once.
proof fn overlays_hydrate_once(m: Map<NodeId, NodeId>, scopes: Seq<ScopePairs>, s: ScopeId)
    requires
        scopes_strict(scopes),
    ensures
        hydrated_overlay(m, scopes, s) == linked(m, pairs_for(scopes, s)),
    decreases scopes.len(),
{
    if scopes.len() > 0 {
        let front = scopes.drop_last();
        let n = scopes.len() - 1;
        assert forall|i: int, j: int| 0 <= i < j < front.len() implies (#[trigger] front[i]).scope
            < (#[trigger] front[j]).scope by {
            assert(scopes[i].scope < scopes[j].scope);
        }
        if scopes[n].scope == s {
            assert(!lists_scope(front, s)) by {
                if lists_scope(front, s) {
                    let i = choose|i: int| 0 <= i < front.len() && (#[trigger] front[i]).scope == s;
                    assert(scopes[i].scope < scopes[n].scope);
                }
            }
            other_scopes_hydrate_nothing(m, front, s);
        } else {
            overlays_hydrate_once(m, front, s);
        }
    }
}

/// After `n` hydrations the memtable resolves through the first `n` layers.
proof fn hydration_resolves(
    l: &LayeredBase,
    ts: Seq<SnapshotView>,
    forests: Seq<ScopedForest>,
    n: int,
)
    requires
        well_stacked(l),
        tables_of(l, ts),
        hydrated_through(forests, ts),
        0 <= n <= ts.len(),
    ensures
        !forests[n].has_base(),
        resolves_through(forests[n].mem_shared(), l.tables(None), n),
        forall|s: ScopeId| #[trigger]
            resolves_through(forests[n].mem_overlay(s), l.tables(Some(s)), n),
    decreases n,
{
    if n == 0 {
        forests[0].nothing_is_linked();
        assert forall|s: ScopeId| #[trigger]
            resolves_through(forests[0].mem_overlay(s), l.tables(Some(s)), 0) by {}
        assert(resolves_through(forests[0].mem_shared(), l.tables(None), 0));
    } else {
        let k = n - 1;
        hydration_resolves(l, ts, forests, k);
        assert(one_hydrated(forests, ts, k));
        let before = forests[k];
        let after = forests[n];
        let t = ts[k];
        assert(holds_tables(&*l.stack()[k], ts[k]));
        let shared = linked(before.mem_shared(), t.global);
        assert(stacked(l.tables(None)));
        assert(l.tables(None)[k] == t.global);
        recording_the_next_layer(before.mem_shared(), l.tables(None), k);
        assert(resolves_through(shared, l.tables(None), n));
        assert forall|x: NodeId| #[trigger] after.mem_shared().contains_key(x) implies in_some(
            l.tables(None),
            n,
            x,
        ) by {
            assert(after.mem_shared().dom().contains(x));
            assert(shared.contains_key(x));
        }
        assert forall|x: NodeId| #[trigger] root_of(after.mem_shared(), x) == climb(
            links_of(l.tables(None).take(n)),
            0,
            x,
        ) by {
            assert(root_of(shared, x) == climb(links_of(l.tables(None).take(n)), 0, x));
        }
        assert forall|s: ScopeId| #[trigger]
            resolves_through(after.mem_overlay(s), l.tables(Some(s)), n) by {
            let tables = l.tables(Some(s));
            assert(stacked(tables));
            assert(l.stack()[k].overlay_pairs(s) == pairs_for(t.scopes, s));
            assert(tables[k] == pairs_for(t.scopes, s));
            assert(resolves_through(before.mem_overlay(s), tables, k));
            recording_the_next_layer(before.mem_overlay(s), tables, k);
            overlays_hydrate_once(before.mem_overlay(s), t.scopes, s);
            assert(after.mem_overlay(s) == hydrated_overlay(before.mem_overlay(s), t.scopes, s));
        }
    }
}

/// What a hydration registers stays registered.
proof fn registrations_stay(
    forests: Seq<ScopedForest>,
    ts: Seq<SnapshotView>,
    i: int,
    n: int,
    c: NodeId,
    s: ScopeId,
)
    requires
        hydrated_through(forests, ts),
        0 <= i <= n <= ts.len(),
        forests[i].mem_registered(c).contains(s),
    ensures
        forests[n].mem_registered(c).contains(s),
    decreases n - i,
{
    if i < n {
        assert(one_hydrated(forests, ts, i));
        assert(forests[i + 1].mem_registered(c).contains(s));
        registrations_stay(forests, ts, i + 1, n, c, s);
    }
}

/// A live shared root at an end of a pair of `s` has `s` registered on it.
proof fn ends_are_registered(
    l: &LayeredBase,
    ts: Seq<SnapshotView>,
    forests: Seq<ScopedForest>,
    s: ScopeId,
    i: int,
    p: int,
    c: NodeId,
)
    requires
        well_stacked(l),
        tables_of(l, ts),
        hydrated_through(forests, ts),
        0 <= i < ts.len(),
        0 <= p < l.tables(Some(s))[i].len(),
        l.tables(Some(s))[i][p].0 == c || l.tables(Some(s))[i][p].1 == c,
        climb(links_of(l.tables(None)), 0, c) == c,
    ensures
        forests[ts.len() as int].mem_registered(c).contains(s),
{
    let t = ts[i];
    assert(holds_tables(&*l.stack()[i], ts[i]));
    assert(l.stack()[i].overlay_pairs(s) == pairs_for(t.scopes, s));
    let pairs = pairs_for(t.scopes, s);
    assert(l.tables(Some(s))[i] == pairs);
    pairs_for_is(t.scopes, s);
    assert(lists_scope(t.scopes, s));
    let a = choose|a: int| 0 <= a < t.scopes.len() && (#[trigger] t.scopes[a]).scope == s;
    assert(t.scopes[a].pairs == pairs);
    // The root is live in every layer.
    let tables = l.tables(None);
    assert(stacked(tables));
    let maps = links_of(tables);
    assert forall|j: int, x: NodeId| 0 <= j < maps.len() && (#[trigger] maps[j].contains_key(
        x,
    )) implies maps[j][x] < x by {
        layer_answers(tables, j);
    }
    climb_descends(maps, 0, c);
    let low = links_of(tables.take(i + 1));
    assert(low =~= maps.take(i + 1));
    assert forall|j: int| 0 <= j < low.len() implies !(#[trigger] low[j].contains_key(c)) by {
        assert(!maps[j].contains_key(c));
    }
    climb_stays(low, 0, low.len() as int, c);
    hydration_resolves(l, ts, forests, i);
    assert(tables[i] == t.global);
    recording_the_next_layer(forests[i].mem_shared(), tables, i);
    let shared = linked(forests[i].mem_shared(), t.global);
    assert(root_of(shared, c) == climb(low, 0, c));
    assert(root_of(shared, t.scopes[a].pairs[p].0) == c || root_of(shared, t.scopes[a].pairs[p].1)
        == c);
    assert(pairs_register(shared, t.scopes, s, c));
    assert(one_hydrated(forests, ts, i));
    assert(forests[i + 1].mem_registered(c).contains(s));
    registrations_stay(forests, ts, i + 1, ts.len() as int, c, s);
}

/// A node that leads elsewhere has a pair in some layer.
proof fn a_linked_node_has_a_pair(tables: Seq<Seq<(NodeId, NodeId)>>, c: NodeId) -> (r: (int, int))
    requires
        stacked(tables),
        climb(links_of(tables), 0, c) != c,
    ensures
        0 <= r.0 < tables.len(),
        0 <= r.1 < tables[r.0].len(),
        tables[r.0][r.1].0 == c,
{
    assert(climbed(links_of(tables)).contains_key(c));
    keys_lead_elsewhere(tables, c);
    let i = choose|i: int| 0 <= i < tables.len() && #[trigger] has_key(tables[i], c);
    let p = choose|p: int| 0 <= p < tables[i].len() && (#[trigger] tables[i][p]).0 == c;
    (i, p)
}

/// **A cold start from a base and its deltas restores every answer**: hydrating
/// the layers of a chain in sequence order gives a consistent forest that
/// resolves every node, in every scope, as the layers do together, and that
/// keeps notifying the scopes of later merges.
pub proof fn hydrating_a_chain_restores_every_answer(
    l: &LayeredBase,
    ts: Seq<SnapshotView>,
    forests: Seq<ScopedForest>,
)
    requires
        well_stacked(l),
        valid_base(l),
        tables_of(l, ts),
        hydrated_through(forests, ts),
    ensures
        forests.last().consistent(),
        forall|x: NodeId| #[trigger] forests.last().shared(x) == step_up(l.shared_links(), x),
        forall|s: ScopeId, x: NodeId| #[trigger]
            forests.last().overlay(s, x) == step_up(l.overlay_links(s), x),
{
    let n = ts.len() as int;
    let f = forests[n];
    hydration_resolves(l, ts, forests, n);
    f.the_memtable_is_the_state();
    let tables = l.tables(None);
    assert(tables.take(n) =~= tables);
    assert forall|x: NodeId| #[trigger] f.shared(x) == step_up(l.shared_links(), x) by {
        assert(root_of(f.mem_shared(), x) == climb(links_of(tables), 0, x));
    }
    assert forall|s: ScopeId, x: NodeId| #[trigger] f.overlay(s, x) == step_up(
        l.overlay_links(s),
        x,
    ) by {
        let own = l.tables(Some(s));
        assert(own.take(n) =~= own);
        assert(resolves_through(f.mem_overlay(s), own, n));
        assert(root_of(f.mem_overlay(s), x) == climb(links_of(own), 0, x));
    }
    assert forall|s: ScopeId| #[trigger] f.elements_follow(s) by {
        assert(settled(l.shared_links(), l.overlay_links(s)));
        assert forall|k: NodeId| (#[trigger] f.overlay(s, k)) != k implies f.overlay(
            s,
            f.shared(k),
        ) == f.overlay(s, k) && f.overlay(s, f.shared(f.overlay(s, k))) == f.overlay(s, k) by {
            assert(l.overlay_links(s).contains_key(k));
        }
    }
    assert forall|s: ScopeId, c: NodeId|
        f.shared(c) == c && !(#[trigger] f.mem_registered(c).contains(s)) implies f.lone(s, c) by {
        let own = l.tables(Some(s));
        assert(stacked(own));
        assert(own.len() == ts.len());
        assert(f.elements_follow(s));
        assert(climb(links_of(tables), 0, c) == c);
        assert forall|k: NodeId| (#[trigger] f.overlay(s, k)) != k implies f.shared(k) != c
            && f.shared(f.overlay(s, k)) != c by {
            let o = f.overlay(s, k);
            if f.shared(k) == c || f.shared(o) == c {
                assert(f.overlay(s, c) == o);
                if o != c {
                    let (i, p) = a_linked_node_has_a_pair(own, c);
                    ends_are_registered(l, ts, forests, s, i, p, c);
                } else {
                    climbing_ends(own, k);
                    let (i, p) = choose|i: int, p: int|
                        0 <= i < own.len() && 0 <= p < own[i].len() && (#[trigger] own[i][p]).1
                            == climb(links_of(own), 0, k);
                    ends_are_registered(l, ts, forests, s, i, p, c);
                }
                assert(false);
            }
        }
    }
}

} // verus!
