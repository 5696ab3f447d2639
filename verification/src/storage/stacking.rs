//! Why a stack of layers is one base: resolution through disjoint layers,
//! merging them, pushing a delta, and splicing a merged run back in.

use std::sync::Arc;
use vstd::prelude::*;

use super::base::{table_links, PuffinBase};
use super::codec::collected_tables;
use super::layered::{
    climb, climbed, least_head, links_of, merge_all, merged, remaining, LayeredBase,
};
use super::round_trip::{listed_table_serves, pairs_for, pairs_for_is, serves_tables, sorted_tables_answer};
use super::sorted::{registry_listing, registry_listing_lists};
use crate::graph::base::{
    ascending, lists, resolved, settled, step_up, untouched, valid_base, RoutingBase,
};
use crate::graph::scoped::{has_key, lists_scope, ScopedForest};
use crate::graph::sink::registry_events;
use crate::graph::sorting::{finite_scopes_have_an_order, scopes_ascending};
use crate::graph::types::{NodeId, ScopeId};

verus! {

// --- resolving through layers --------------------------------------------------------------------

/// No layer records a node as its own parent.
pub open spec fn no_self_links(maps: Seq<Map<NodeId, NodeId>>) -> bool {
    forall|i: int, k: NodeId|
        0 <= i < maps.len() && (#[trigger] maps[i].contains_key(k)) ==> maps[i][k] != k
}

proof fn climb_push_from(
    maps: Seq<Map<NodeId, NodeId>>,
    d: Map<NodeId, NodeId>,
    from: int,
    x: NodeId,
)
    requires
        no_self_links(maps),
        0 <= from <= maps.len(),
    ensures
        climb(maps.push(d), from, x) == step_up(d, climb(maps, from, x)),
    decreases maps.len() - from,
{
    let all = maps.push(d);
    if from < maps.len() {
        assert(all[from] == maps[from]);
        if maps[from].contains_key(x) {
            climb_push_from(maps, d, from + 1, maps[from][x]);
        } else {
            climb_push_from(maps, d, from + 1, x);
        }
    } else {
        assert(all[from] == d);
        reveal_with_fuel(climb, 2);
    }
}

/// **A newer layer refines the answer**: through one more layer a node leads
/// where that layer leads what the layers below answer.
pub proof fn a_newer_layer_refines(
    maps: Seq<Map<NodeId, NodeId>>,
    d: Map<NodeId, NodeId>,
    x: NodeId,
)
    requires
        no_self_links(maps),
    ensures
        climb(maps.push(d), 0, x) == step_up(d, climb(maps, 0, x)),
{
    climb_push_from(maps, d, 0, x);
}

/// Resolving through a stack is resolving through its lower part and then
/// through its upper part.
pub proof fn climbing_splits(
    low: Seq<Map<NodeId, NodeId>>,
    high: Seq<Map<NodeId, NodeId>>,
    x: NodeId,
)
    requires
        no_self_links(low),
        no_self_links(high),
    ensures
        climb(low + high, 0, x) == climb(high, 0, climb(low, 0, x)),
    decreases high.len(),
{
    if high.len() == 0 {
        assert(low + high =~= low);
    } else {
        let front = high.drop_last();
        assert forall|i: int, k: NodeId|
            0 <= i < front.len() && (#[trigger] front[i].contains_key(k))
        implies front[i][k] != k by {
            assert(high[i].contains_key(k));
        }
        climbing_splits(low, front, x);
        assert(high =~= front.push(high.last()));
        assert(low + high =~= (low + front).push(high.last()));
        assert(no_self_links(low + front)) by {
            assert forall|i: int, k: NodeId|
                0 <= i < (low + front).len() && (#[trigger] (low + front)[i].contains_key(k))
            implies (low + front)[i][k] != k by {
                if i < low.len() {
                    assert(low[i].contains_key(k));
                } else {
                    assert(front[i - low.len()].contains_key(k));
                }
            }
        }
        a_newer_layer_refines(low + front, high.last(), x);
        a_newer_layer_refines(front, high.last(), climb(low, 0, x));
    }
}

proof fn climb_one(m: Map<NodeId, NodeId>, x: NodeId)
    ensures
        climb(seq![m], 0, x) == step_up(m, x),
{
    reveal_with_fuel(climb, 2);
}

/// **A merged run resolves like the layers it replaced**: with the middle of a
/// stack replaced by one layer that holds what the middle resolves to, every
/// node leads where it led.
pub proof fn a_spliced_merge_resolves_alike(
    low: Seq<Map<NodeId, NodeId>>,
    middle: Seq<Map<NodeId, NodeId>>,
    high: Seq<Map<NodeId, NodeId>>,
    x: NodeId,
)
    requires
        no_self_links(low),
        no_self_links(middle),
        no_self_links(high),
    ensures
        climb(low.push(climbed(middle)) + high, 0, x) == climb(low + middle + high, 0, x),
{
    let m = climbed(middle);
    let one = seq![m];
    assert(no_self_links(one));
    assert(no_self_links(low + middle)) by {
        assert forall|i: int, k: NodeId|
            0 <= i < (low + middle).len() && (#[trigger] (low + middle)[i].contains_key(k))
        implies (low + middle)[i][k] != k by {
            if i < low.len() {
                assert(low[i].contains_key(k));
            } else {
                assert(middle[i - low.len()].contains_key(k));
            }
        }
    }
    assert(no_self_links(low + one)) by {
        assert forall|i: int, k: NodeId|
            0 <= i < (low + one).len() && (#[trigger] (low + one)[i].contains_key(k))
        implies (low + one)[i][k] != k by {
            if i < low.len() {
                assert(low[i].contains_key(k));
            } else {
                assert(one[i - low.len()].contains_key(k));
            }
        }
    }
    climbing_splits(low + middle, high, x);
    climbing_splits(low, middle, x);
    assert(low.push(m) =~= low + one);
    climbing_splits(low + one, high, x);
    climbing_splits(low, one, x);
    climb_one(m, climb(low, 0, x));
}

// --- disjoint layers -------------------------------------------------------------------------------

/// Neither end of `pair` is a key of `table`.
pub open spec fn clear_of(table: Seq<(NodeId, NodeId)>, pair: (NodeId, NodeId)) -> bool {
    !has_key(table, pair.0) && !has_key(table, pair.1)
}

/// Every layer is sorted, points downwards, and its keys and values have no
/// parent in the layers below; its values have none in the layer itself
/// either.
pub open spec fn stacked(tables: Seq<Seq<(NodeId, NodeId)>>) -> bool {
    &&& forall|i: int| 0 <= i < tables.len() ==> ascending(#[trigger] tables[i])
    &&& forall|i: int, p: int|
        0 <= i < tables.len() && 0 <= p < tables[i].len() ==> (#[trigger] tables[i][p]).1
            < tables[i][p].0
    &&& forall|j: int, i: int, p: int|
        0 <= j < i < tables.len() && 0 <= p < tables[i].len() ==> #[trigger] clear_of(
            tables[j],
            tables[i][p],
        )
    &&& forall|i: int, p: int|
        0 <= i < tables.len() && 0 <= p < tables[i].len() ==> !has_key(
            tables[i],
            (#[trigger] tables[i][p]).1,
        )
}

/// What a layer of a stack answers.
pub proof fn layer_answers(tables: Seq<Seq<(NodeId, NodeId)>>, i: int)
    requires
        stacked(tables),
        0 <= i < tables.len(),
    ensures
        links_of(tables)[i] == table_links(tables[i]),
        lists(tables[i], table_links(tables[i])),
        forall|k: NodeId| #[trigger] links_of(tables)[i].contains_key(k) <==> has_key(tables[i], k),
        forall|k: NodeId| #[trigger] links_of(tables)[i].contains_key(k) ==> links_of(tables)[i][k] < k,
{
    sorted_tables_answer(tables[i]);
    let links = table_links(tables[i]);
    assert forall|k: NodeId| #[trigger] links.contains_key(k) <==> has_key(tables[i], k) by {
        if has_key(tables[i], k) {
            let p = choose|p: int| 0 <= p < tables[i].len() && (#[trigger] tables[i][p]).0 == k;
            assert(links.contains_key(tables[i][p].0));
        }
    }
    assert forall|k: NodeId| #[trigger] links.contains_key(k) implies links[k] < k by {
        let p = choose|p: int| 0 <= p < tables[i].len() && (#[trigger] tables[i][p]).0 == k;
        assert(links[tables[i][p].0] == tables[i][p].1);
    }
}

pub proof fn stacks_have_no_self_links(tables: Seq<Seq<(NodeId, NodeId)>>)
    requires
        stacked(tables),
    ensures
        no_self_links(links_of(tables)),
{
    let maps = links_of(tables);
    assert forall|i: int, k: NodeId|
        0 <= i < maps.len() && (#[trigger] maps[i].contains_key(k))
    implies maps[i][k] != k by {
        layer_answers(tables, i);
    }
}

/// A node that no layer from `from` on knows stays where it is.
pub proof fn climb_stays(maps: Seq<Map<NodeId, NodeId>>, from: int, to: int, x: NodeId)
    requires
        0 <= from <= to <= maps.len(),
        forall|i: int| from <= i < to ==> !(#[trigger] maps[i].contains_key(x)),
    ensures
        climb(maps, from, x) == climb(maps, to, x),
    decreases to - from,
{
    if from < to {
        assert(!maps[from].contains_key(x));
        climb_stays(maps, from + 1, to, x);
    }
}

pub proof fn climb_descends(maps: Seq<Map<NodeId, NodeId>>, from: int, x: NodeId)
    requires
        0 <= from <= maps.len(),
        forall|i: int, k: NodeId| 0 <= i < maps.len() && (#[trigger] maps[i].contains_key(k)) ==> maps[i][k] < k,
    ensures
        climb(maps, from, x) <= x,
        climb(maps, from, x) == x <==> forall|i: int| from <= i < maps.len() ==> !(#[trigger] maps[i].contains_key(x)),
    decreases maps.len() - from,
{
    if from < maps.len() {
        if maps[from].contains_key(x) {
            climb_descends(maps, from + 1, maps[from][x]);
        } else {
            climb_descends(maps, from + 1, x);
            assert(climb(maps, from, x) == climb(maps, from + 1, x));
        }
    }
}

/// **The first hit is the only hit**: a recorded pair's node leads where its
/// recorded parent leads, and that is further down.
pub proof fn a_key_leads_where_its_parent_leads(tables: Seq<Seq<(NodeId, NodeId)>>, i: int, p: int)
    requires
        stacked(tables),
        0 <= i < tables.len(),
        0 <= p < tables[i].len(),
    ensures
        climb(links_of(tables), 0, tables[i][p].0) == climb(links_of(tables), 0, tables[i][p].1),
        climb(links_of(tables), 0, tables[i][p].0) < tables[i][p].0,
{
    let maps = links_of(tables);
    let (k, v) = tables[i][p];
    layer_answers(tables, i);
    assert(has_key(tables[i], k));
    assert(maps[i].contains_key(tables[i][p].0) && maps[i][k] == v);
    assert forall|j: int| 0 <= j < i implies !(#[trigger] maps[j].contains_key(k)) by {
        layer_answers(tables, j);
        assert(clear_of(tables[j], tables[i][p]));
    }
    assert forall|j: int| 0 <= j < i + 1 implies !(#[trigger] maps[j].contains_key(v)) by {
        layer_answers(tables, j);
        if j < i {
            assert(clear_of(tables[j], tables[i][p]));
        } else {
            assert(!has_key(tables[i], tables[i][p].1));
        }
    }
    climb_stays(maps, 0, i, k);
    climb_stays(maps, 0, i + 1, v);
    assert forall|j: int, x: NodeId|
        0 <= j < maps.len() && (#[trigger] maps[j].contains_key(x))
    implies maps[j][x] < x by {
        layer_answers(tables, j);
    }
    climb_descends(maps, i + 1, v);
}

/// A node leads elsewhere where some layer has it as a key.
pub proof fn keys_lead_elsewhere(tables: Seq<Seq<(NodeId, NodeId)>>, x: NodeId)
    requires
        stacked(tables),
    ensures
        climbed(links_of(tables)).contains_key(x) <==> exists|i: int| 0 <= i < tables.len() && #[trigger] has_key(tables[i], x),
{
    let maps = links_of(tables);
    assert forall|j: int, x: NodeId|
        0 <= j < maps.len() && (#[trigger] maps[j].contains_key(x))
    implies maps[j][x] < x by {
        layer_answers(tables, j);
    }
    climb_descends(maps, 0, x);
    if climb(maps, 0, x) != x {
        let i = choose|i: int| 0 <= i < maps.len() && #[trigger] maps[i].contains_key(x);
        layer_answers(tables, i);
        assert(has_key(tables[i], x));
    }
    if exists|i: int| 0 <= i < tables.len() && #[trigger] has_key(tables[i], x) {
        let i = choose|i: int| 0 <= i < tables.len() && #[trigger] has_key(tables[i], x);
        layer_answers(tables, i);
        assert(maps[i].contains_key(x));
    }
}

// --- merging ---------------------------------------------------------------------------------------

/// Key `p` of table `i` is still to come.
pub open spec fn to_come(
    tables: Seq<Seq<(NodeId, NodeId)>>,
    positions: Seq<usize>,
    i: int,
    p: int,
) -> bool {
    &&& 0 <= i < tables.len()
    &&& positions[i] <= p < tables[i].len()
}

proof fn head_is_least(tables: Seq<Seq<(NodeId, NodeId)>>, positions: Seq<usize>, n: nat)
    requires
        n <= tables.len(),
        positions.len() == tables.len(),
    ensures
        match least_head(tables, positions, n) {
            None => forall|j: int| 0 <= j < n ==> positions[j] >= (#[trigger] tables[j]).len(),
            Some(i) => 0 <= i < n && positions[i] < tables[i].len() && forall|j: int|
                0 <= j < n && positions[j] < (#[trigger] tables[j]).len() ==> tables[i][positions[i] as int].0
                    <= tables[j][positions[j] as int].0,
        },
    decreases n,
{
    if n > 0 {
        head_is_least(tables, positions, (n - 1) as nat);
    }
}

proof fn remaining_is_positive(
    tables: Seq<Seq<(NodeId, NodeId)>>,
    positions: Seq<usize>,
    i: int,
    n: nat,
)
    requires
        0 <= i < n <= tables.len(),
        positions.len() == tables.len(),
        positions[i] < tables[i].len(),
    ensures
        remaining(tables, positions, n) > 0,
    decreases n,
{
    if i < n - 1 {
        remaining_is_positive(tables, positions, i, (n - 1) as nat);
    }
}

proof fn remaining_after(tables: Seq<Seq<(NodeId, NodeId)>>, positions: Seq<usize>, i: int, n: nat)
    requires
        n <= tables.len(),
        positions.len() == tables.len(),
        0 <= i < tables.len(),
        positions[i] < tables[i].len() <= usize::MAX,
    ensures
        remaining(tables, positions.update(i, (positions[i] + 1) as usize), n) == if i < n {
            remaining(tables, positions, n) - 1
        } else {
            remaining(tables, positions, n) as int
        },
    decreases n,
{
    if n > 0 {
        remaining_after(tables, positions, i, (n - 1) as nat);
    }
}

/// The merge from a place on lists the keys to come, each once, in order.
proof fn merge_lists(tables: Seq<Seq<(NodeId, NodeId)>>, positions: Seq<usize>, left: nat)
    requires
        stacked(tables),
        positions.len() == tables.len(),
        left == remaining(tables, positions, tables.len()),
        forall|i: int| 0 <= i < tables.len() ==> (#[trigger] tables[i]).len() <= usize::MAX,
    ensures
        ({
            let out = merged(tables, positions, left);
            &&& ascending(out)
            &&& forall|a: int| 0 <= a < out.len() ==> #[trigger] comes_from(tables, positions, out[a])
            &&& forall|i: int, p: int| #[trigger] to_come(tables, positions, i, p) ==> has_key(out, tables[i][p].0)
        }),
    decreases left,
{
    let out = merged(tables, positions, left);
    head_is_least(tables, positions, tables.len());
    match least_head(tables, positions, tables.len()) {
        None => {
            assert forall|i: int, p: int|
                #[trigger] to_come(tables, positions, i, p)
            implies has_key(out, tables[i][p].0) by {
                assert(positions[i] >= tables[i].len());
            }
        },
        Some(i) => {
            remaining_is_positive(tables, positions, i, tables.len());
            let at = positions[i] as int;
            let next = positions.update(i, (positions[i] + 1) as usize);
            remaining_after(tables, positions, i, tables.len());
            merge_lists(tables, next, (left - 1) as nat);
            let (k, v) = tables[i][at];
            let root = climb(links_of(tables), 0, v);
            a_key_leads_where_its_parent_leads(tables, i, at);
            assert(root != k);
            let rest = merged(tables, next, (left - 1) as nat);
            assert(out == seq![(k, root)] + rest);
            assert(out[0] == (k, root));
            assert forall|a: int|
                0 <= a < out.len()
            implies #[trigger] comes_from(tables, positions, out[a]) by {
                if a == 0 {
                    assert(to_come(tables, positions, i, at));
                } else {
                    assert(comes_from(tables, next, rest[a - 1]));
                    let (j, p) = choose|j: int, p: int| #[trigger] to_come(tables, next, j, p) && tables[j][p].0 == rest[a - 1].0 && rest[a - 1].1 == climb(links_of(tables), 0, tables[j][p].1);
                    assert(to_come(tables, positions, j, p));
                }
            }
            // What comes later is larger.
            assert forall|b: int| 0 <= b < rest.len() implies k < (#[trigger] rest[b]).0 by {
                assert(comes_from(tables, next, rest[b]));
                let (j, p) = choose|j: int, p: int| #[trigger] to_come(tables, next, j, p) && tables[j][p].0 == rest[b].0 && rest[b].1 == climb(links_of(tables), 0, tables[j][p].1);
                if j == i {
                    assert(tables[i][at].0 < tables[i][p].0);
                } else {
                    let h = positions[j] as int;
                    assert(tables[i][at].0 <= tables[j][h].0);
                    if h < p {
                        assert(tables[j][h].0 < tables[j][p].0);
                    }
                    if tables[j][p].0 == k {
                        assert(has_key(tables[i], k));
                        assert(has_key(tables[j], k)) by {
                            assert(tables[j][p].0 == k);
                        }
                        if i < j {
                            assert(clear_of(tables[i], tables[j][p]));
                        } else {
                            assert(clear_of(tables[j], tables[i][at]));
                        }
                    }
                }
            }
            assert forall|a: int, b: int|
                0 <= a < b < out.len()
            implies (#[trigger] out[a]).0 < (#[trigger] out[b]).0 by {
                if a > 0 {
                    assert(rest[a - 1].0 < rest[b - 1].0);
                } else {
                    assert(k < rest[b - 1].0);
                }
            }
            assert forall|j: int, p: int|
                #[trigger] to_come(tables, positions, j, p)
            implies has_key(out, tables[j][p].0) by {
                if j == i && p == at {
                    assert(out[0].0 == k);
                } else {
                    assert(to_come(tables, next, j, p));
                    let b = choose|b: int| 0 <= b < rest.len() && (#[trigger] rest[b]).0 == tables[j][p].0;
                    assert(out[b + 1] == rest[b]);
                }
            }
        },
    }
}

/// A merged pair is a key to come with where its parent leads.
pub open spec fn comes_from(
    tables: Seq<Seq<(NodeId, NodeId)>>,
    positions: Seq<usize>,
    pair: (NodeId, NodeId),
) -> bool {
    exists|j: int, p: int| #[trigger]
        to_come(tables, positions, j, p) && tables[j][p].0 == pair.0 && pair.1 == climb(
            links_of(tables),
            0,
            tables[j][p].1,
        )
}

/// **The merge of a stack is its flattened form**: every key of every layer
/// once, in ascending order, with its fully resolved value.
pub proof fn merging_lists_the_stack(tables: Seq<Seq<(NodeId, NodeId)>>)
    requires
        stacked(tables),
        forall|i: int| 0 <= i < tables.len() ==> (#[trigger] tables[i]).len() <= usize::MAX,
    ensures
        lists(merge_all(tables), climbed(links_of(tables))),
{
    let start = Seq::new(tables.len(), |i: int| 0usize);
    let out = merge_all(tables);
    let links = climbed(links_of(tables));
    merge_lists(tables, start, remaining(tables, start, tables.len()));
    assert forall|a: int| 0 <= a < out.len() implies links.contains_key((#[trigger] out[a]).0)
        && links[out[a].0] == out[a].1 by {
        assert(comes_from(tables, start, out[a]));
        let (j, p) = choose|j: int, p: int| #[trigger] to_come(tables, start, j, p) && tables[j][p].0 == out[a].0 && out[a].1 == climb(links_of(tables), 0, tables[j][p].1);
        a_key_leads_where_its_parent_leads(tables, j, p);
    }
    assert forall|k: NodeId| #[trigger] links.contains_key(k) implies exists|a: int|
        0 <= a < out.len() && (#[trigger] out[a]).0 == k by {
        keys_lead_elsewhere(tables, k);
        let i = choose|i: int| 0 <= i < tables.len() && #[trigger] has_key(tables[i], k);
        let p = choose|p: int| 0 <= p < tables[i].len() && (#[trigger] tables[i][p]).0 == k;
        assert(to_come(tables, start, i, p));
        assert(has_key(out, k));
    }
}

// --- stacks as bases -------------------------------------------------------------------------------

/// Every level of the stack is made of disjoint layers.
pub open spec fn well_stacked(l: &LayeredBase) -> bool {
    forall|level: Option<ScopeId>| stacked(#[trigger] l.tables(level))
}

/// The tables of a well-formed layer can be addressed.
pub proof fn tables_are_short(l: &LayeredBase, level: Option<ScopeId>)
    requires
        l.wf(),
    ensures
        forall|i: int| 0 <= i < l.tables(level).len() ==> (#[trigger] l.tables(level)[i]).len() <= usize::MAX,
{
    let tables = l.tables(level);
    assert forall|i: int|
        0 <= i < tables.len()
    implies (#[trigger] tables[i]).len() <= usize::MAX by {
        let b = l.stack()[i];
        match level {
            None => {},
            Some(s) => {},
        }
    }
}

/// The scopes of the first `n` layers.
spec fn scopes_below(l: &LayeredBase, n: nat) -> Set<ScopeId>
    decreases n,
{
    if n == 0 {
        Set::empty()
    } else {
        scopes_below(l, (n - 1) as nat).union(l.stack()[n - 1].scope_list().to_set())
    }
}

proof fn scopes_below_is(l: &LayeredBase, n: nat, s: ScopeId)
    requires
        n <= l.stack().len(),
    ensures
        scopes_below(l, n).finite(),
        scopes_below(l, n).contains(s) <==> exists|i: int| i < n && #[trigger] l.layer_has(i, s),
    decreases n,
{
    if n > 0 {
        scopes_below_is(l, (n - 1) as nat, s);
        let list = l.stack()[n - 1].scope_list();
        assert(list.to_set().finite());
        if scopes_below(l, (n - 1) as nat).contains(s) {
            let i = choose|i: int| i < n - 1 && #[trigger] l.layer_has(i, s);
            assert(i < n && l.layer_has(i, s));
        }
        if list.to_set().contains(s) {
            assert(l.layer_has(n - 1, s));
        }
    }
}

/// The scopes of a stack are listed in ascending order.
pub proof fn stack_scopes_are_listed(l: &LayeredBase)
    ensures
        scopes_ascending(l.scope_list()),
        forall|s: ScopeId| l.scope_list().contains(s) <==> #[trigger] l.all_scopes().contains(s),
{
    let n = l.stack().len();
    let below = scopes_below(l, n);
    scopes_below_is(l, n, 0);
    assert forall|s: ScopeId| below.contains(s) == l.all_scopes().contains(s) by {
        scopes_below_is(l, n, s);
        if l.all_scopes().contains(s) {
            let i = choose|i: int| #[trigger] l.layer_has(i, s);
            assert(i < n && l.layer_has(i, s));
        }
    }
    assert(below =~= l.all_scopes());
    finite_scopes_have_an_order(l.all_scopes());
    let list = l.scope_list();
    assert forall|s: ScopeId| list.contains(s) <==> #[trigger] l.all_scopes().contains(s) by {
        assert(list.to_set().contains(s) <==> list.contains(s));
    }
}

/// A scope with an overlay link somewhere in the stack is listed.
proof fn linked_scopes_are_listed(l: &LayeredBase, s: ScopeId, k: NodeId)
    requires
        l.wf(),
        well_stacked(l),
        l.overlay_links(s).contains_key(k),
    ensures
        l.scope_list().contains(s),
{
    let tables = l.tables(Some(s));
    assert(stacked(tables));
    keys_lead_elsewhere(tables, k);
    let i = choose|i: int| 0 <= i < tables.len() && #[trigger] has_key(tables[i], k);
    let p = choose|p: int| 0 <= p < tables[i].len() && (#[trigger] tables[i][p]).0 == k;
    let b = l.stack()[i];
    assert(b.wf());
    assert(b.overlay_pairs(s).len() > 0);
    super::base::listed_where_tabled(b.overlay_tables(), s);
    let j = choose|j: int| 0 <= j < b.overlay_tables().len() && (#[trigger] b.overlay_tables()[j]).scope == s;
    assert(b.scope_list()[j] == s);
    assert(b.scope_list().contains(s));
    assert(l.layer_has(i, s));
    assert(l.all_scopes().contains(s));
    stack_scopes_are_listed(l);
}

/// A table that lists resolved links is a stack of its own.
proof fn one_layer_is_stacked(pairs: Seq<(NodeId, NodeId)>, links: Map<NodeId, NodeId>)
    requires
        lists(pairs, links),
        resolved(links),
    ensures
        stacked(seq![pairs]),
        climbed(links_of(seq![pairs])) == links,
{
    let tables = seq![pairs];
    assert forall|i: int, p: int|
        0 <= i < tables.len() && 0 <= p < tables[i].len()
    implies (#[trigger] tables[i][p]).1 < tables[i][p].0 by {
        assert(links.contains_key(pairs[p].0));
    }
    assert forall|i: int, p: int|
        0 <= i < tables.len() && 0 <= p < tables[i].len()
    implies !has_key(tables[i], (#[trigger] tables[i][p]).1) by {
        assert(links.contains_key(pairs[p].0));
        if has_key(pairs, pairs[p].1) {
            let q = choose|q: int| 0 <= q < pairs.len() && (#[trigger] pairs[q]).0 == pairs[p].1;
            assert(links.contains_key(pairs[q].0));
        }
    }
    listed_table_serves(pairs, links);
    let maps = links_of(tables);
    assert(maps =~= seq![links]);
    let got = climbed(maps);
    assert forall|x: NodeId| #[trigger] got.contains_key(x) == links.contains_key(x) by {
        climb_one(links, x);
    }
    assert forall|x: NodeId| #[trigger] got.contains_key(x) implies got[x] == links[x] by {
        climb_one(links, x);
    }
    same_links(got, links);
}

/// **One layer is a stack**: a valid base alone answers the same as a layered
/// base without deltas.
pub proof fn a_lone_base_is_a_stack(l: &LayeredBase, b: Arc<PuffinBase>)
    requires
        l.wf(),
        b.wf(),
        l.stack() == seq![b],
        valid_base(&*b),
    ensures
        well_stacked(l),
        valid_base(l),
        l.shared_links() == b.shared_links(),
        forall|s: ScopeId| #[trigger] l.overlay_links(s) == b.overlay_links(s),
{
    assert forall|level: Option<ScopeId>| stacked(#[trigger] l.tables(level)) && (match level {
        None => l.links_at(level) == b.shared_links(),
        Some(s) => l.links_at(level) == b.overlay_links(s),
    }) by {
        match level {
            None => {
                assert(l.tables(level) =~= seq![b.shared_pairs()]);
                one_layer_is_stacked(b.shared_pairs(), b.shared_links());
            },
            Some(s) => {
                assert(l.tables(level) =~= seq![b.overlay_pairs(s)]);
                assert(lists(b.overlay_stream(s), b.overlay_links(s)));
                assert(resolved(b.overlay_links(s)));
                one_layer_is_stacked(b.overlay_pairs(s), b.overlay_links(s));
            },
        }
    }
    assert(l.links_at(None) == b.shared_links());
    assert forall|s: ScopeId| #[trigger] l.overlay_links(s) == b.overlay_links(s) by {
        let level = Some(s);
        assert(stacked(l.tables(level)));
    }
    assert(stacked(l.tables(None)));
    tables_are_short(l, None);
    merging_lists_the_stack(l.tables(None));
    assert forall|s: ScopeId| lists(#[trigger] l.overlay_stream(s), l.overlay_links(s)) by {
        assert(stacked(l.tables(Some(s))));
        tables_are_short(l, Some(s));
        merging_lists_the_stack(l.tables(Some(s)));
    }
    stack_scopes_are_listed(l);
    assert forall|s: ScopeId, k: NodeId|
        #[trigger] l.overlay_links(s).contains_key(k)
    implies l.scope_list().contains(s) by {
        linked_scopes_are_listed(l, s, k);
    }
    assert forall|s: ScopeId| #[trigger] resolved(l.overlay_links(s)) by {
        assert(resolved(b.overlay_links(s)));
    }
    assert forall|s: ScopeId| settled(l.shared_links(), #[trigger] l.overlay_links(s)) by {
        assert(settled(b.shared_links(), b.overlay_links(s)));
    }
    assert forall|s: ScopeId, c: NodeId|
        !l.shared_links().contains_key(c) && !(#[trigger] l.registered(c).contains(s)) implies untouched(
        l.shared_links(),
        l.overlay_links(s),
        c,
    ) by {
        if b.registered(c).contains(s) {
            assert(l.layer_registers(0, c, s));
        }
        assert(untouched(b.shared_links(), b.overlay_links(s), c));
    }
}

/// What a delta's table adds to a stack.
proof fn delta_layer_stacks(
    forest: &ScopedForest,
    tables: Seq<Seq<(NodeId, NodeId)>>,
    delta: Seq<(NodeId, NodeId)>,
    level: Option<ScopeId>,
)
    requires
        forest.wf(),
        forest.consistent(),
        stacked(tables),
        forest.base_at(level) == climbed(links_of(tables)),
        lists(delta, forest.streamed_links(level, false)),
    ensures
        stacked(tables.push(delta)),
        climbed(links_of(tables.push(delta))) == forest.encoded(level),
{
    let all = tables.push(delta);
    let n = tables.len() as int;
    let d = forest.streamed_links(level, false);
    let base = forest.base_at(level);
    forest.a_delta_completes_the_base(level);
    assert forall|p: int|
        0 <= p < delta.len()
    implies d.contains_key((#[trigger] delta[p]).0) && d[delta[p].0] == delta[p].1 by {}
    assert forall|i: int, p: int|
        0 <= i < all.len() && 0 <= p < all[i].len()
    implies (#[trigger] all[i][p]).1 < all[i][p].0 by {
        if i < n {
            assert(tables[i][p].1 < tables[i][p].0);
        } else {
            assert(d.contains_key(delta[p].0));
        }
    }
    assert forall|j: int, i: int, p: int|
        0 <= j < i < all.len() && 0 <= p < all[i].len() implies #[trigger] clear_of(
        all[j],
        all[i][p],
    ) by {
        if i < n {
            assert(clear_of(tables[j], tables[i][p]));
        } else {
            let k = delta[p].0;
            let v = delta[p].1;
            assert(d.contains_key(k));
            keys_lead_elsewhere(tables, k);
            keys_lead_elsewhere(tables, v);
            if has_key(tables[j], k) {
                assert(base.contains_key(k));
            }
            if has_key(tables[j], v) {
                assert(base.contains_key(v));
            }
        }
    }
    assert forall|i: int, p: int|
        0 <= i < all.len() && 0 <= p < all[i].len()
    implies !has_key(all[i], (#[trigger] all[i][p]).1) by {
        if i < n {
            assert(!has_key(tables[i], tables[i][p].1));
        } else {
            assert(d.contains_key(delta[p].0));
            if has_key(delta, delta[p].1) {
                let q = choose|q: int| 0 <= q < delta.len() && (#[trigger] delta[q]).0 == delta[p].1;
                assert(d.contains_key(delta[q].0));
            }
        }
    }
    assert forall|i: int| 0 <= i < all.len() implies ascending(#[trigger] all[i]) by {
        if i < n {
            assert(ascending(tables[i]));
        }
    }
    listed_table_serves(delta, d);
    let maps = links_of(tables);
    assert(links_of(all) =~= maps.push(d));
    stacks_have_no_self_links(tables);
    let links = climbed(links_of(all));
    let want = forest.encoded(level);
    assert forall|x: NodeId| #[trigger] links.contains_key(x) == want.contains_key(x) && (links.contains_key(x) ==> links[x] == want[x]) by {
        a_newer_layer_refines(maps, d, x);
        assert(climb(maps, 0, x) == step_up(base, x));
        assert(step_up(d, step_up(base, x)) == forest.root_at(level, x));
        assert(want.contains_key(x) <==> forest.root_at(level, x) != x);
    }
    same_links(links, want);
}

proof fn same_links(a: Map<NodeId, NodeId>, b: Map<NodeId, NodeId>)
    requires
        forall|x: NodeId| #[trigger] a.contains_key(x) == b.contains_key(x),
        forall|x: NodeId| #[trigger] a.contains_key(x) ==> a[x] == b[x],
    ensures
        a == b,
{
    assert forall|x: NodeId| a.dom().contains(x) == b.dom().contains(x) by {
        assert(a.contains_key(x) == b.contains_key(x));
    }
    assert(a.dom() =~= b.dom());
    assert forall|x: NodeId| a.dom().contains(x) implies a[x] == b[x] by {
        assert(a.contains_key(x));
    }
    assert(a =~= b);
}

/// The table of one level of a layer.
pub open spec fn layer_table(b: &PuffinBase, level: Option<ScopeId>) -> Seq<(NodeId, NodeId)> {
    match level {
        None => b.shared_pairs(),
        Some(s) => b.overlay_pairs(s),
    }
}

proof fn delta_tables_list(forest: &ScopedForest, d: &PuffinBase, seq: i64, level: Option<ScopeId>)
    requires
        forest.wf(),
        forest.consistent(),
        serves_tables(
            d,
            collected_tables(forest.stream(false)),
            registry_listing(registry_events(forest.stream(false))),
            seq,
        ),
    ensures
        lists(layer_table(d, level), forest.streamed_links(level, false)),
{
    let t = collected_tables(forest.stream(false));
    forest.collecting_lists_the_stream(false);
    if let Some(s) = level {
        assert(d.overlay_pairs(s) == pairs_for(t.scopes, s));
        pairs_for_is(t.scopes, s);
        let links = forest.streamed_links(Some(s), false);
        if lists_scope(t.scopes, s) {
            let i = choose|i: int| 0 <= i < t.scopes.len() && (#[trigger] t.scopes[i]).scope == s;
            assert(lists(t.scopes[i].pairs, links));
        } else {
            assert forall|k: NodeId| !(#[trigger] links.contains_key(k)) by {
                if links.contains_key(k) {
                    assert(lists_scope(t.scopes, s));
                }
            }
        }
    }
}

/// **A delta fold changes no answer**: with what the memtable streams pushed
/// as a new layer, the stack holds exactly the forest's resolved pairs, its
/// layers stay disjoint, and it is a valid base for what is applied next. The
/// base is appended to, never rewritten.
pub proof fn a_pushed_delta_captures_the_forest(
    forest: &ScopedForest,
    l: &LayeredBase,
    d: Arc<PuffinBase>,
    pushed: &LayeredBase,
    seq: i64,
)
    requires
        forest.wf(),
        forest.consistent(),
        forest.serves(l),
        l.wf(),
        well_stacked(l),
        d.wf(),
        serves_tables(
            &*d,
            collected_tables(forest.stream(false)),
            registry_listing(registry_events(forest.stream(false))),
            seq,
        ),
        pushed.wf(),
        pushed.stack() == l.stack().push(d),
    ensures
        well_stacked(pushed),
        forest.captured_by(pushed),
        valid_base(pushed),
{
    forest.served(l);
    assert forall|level: Option<ScopeId>| stacked(#[trigger] pushed.tables(level)) && pushed.links_at(level) == forest.encoded(level) by {
        delta_tables_list(forest, &*d, seq, level);
        assert(pushed.tables(level) =~= l.tables(level).push(layer_table(&*d, level)));
        assert(forest.base_at(level) == l.links_at(level)) by {
            if let Some(s) = level {
                assert(forest.base_overlay(s) == l.overlay_links(s));
            }
        }
        assert(stacked(l.tables(level)));
        delta_layer_stacks(forest, l.tables(level), layer_table(&*d, level), level);
    }
    assert(stacked(pushed.tables(None)));
    assert forall|s: ScopeId| #[trigger] pushed.overlay_links(s) == forest.encoded(Some(s)) by {
        assert(stacked(pushed.tables(Some(s))));
    }
    assert(forest.captured_by(pushed));
    forest.captured_pairs_settle(pushed);
    tables_are_short(pushed, None);
    merging_lists_the_stack(pushed.tables(None));
    assert forall|s: ScopeId| lists(#[trigger] pushed.overlay_stream(s), pushed.overlay_links(s)) by {
        assert(stacked(pushed.tables(Some(s))));
        tables_are_short(pushed, Some(s));
        merging_lists_the_stack(pushed.tables(Some(s)));
    }
    stack_scopes_are_listed(pushed);
    assert forall|s: ScopeId, k: NodeId|
        #[trigger] pushed.overlay_links(s).contains_key(k)
    implies pushed.scope_list().contains(s) by {
        linked_scopes_are_listed(pushed, s, k);
    }
    assert forall|s: ScopeId, c: NodeId|
        !pushed.shared_links().contains_key(c) && !(#[trigger] pushed.registered(c).contains(
            s,
        )) implies untouched(pushed.shared_links(), pushed.overlay_links(s), c) by {
        forest.a_delta_completes_the_base(None);
        assert(forest.encoded(None).contains_key(c) <==> forest.root_at(None, c) != c);
        assert(forest.shared(c) == c);
        if forest.lone(s, c) {
            forest.lone_roots_are_untouched(pushed, s, c);
        } else {
            forest.a_delta_registers_what_it_glues(s, c);
            if forest.base_registered(c).contains(s) {
                assert(l.registered(c).contains(s));
                let i = choose|i: int| #[trigger] l.layer_registers(i, c, s);
                assert(pushed.stack()[i] == l.stack()[i]);
                assert(pushed.layer_registers(i, c, s));
            } else {
                let k = choose|k: NodeId| #[trigger] forest.streams_at(false, s, k, c);
                let raw = registry_events(forest.stream(false));
                let e = (c, s);
                forest.streamed_registry_is_exact(false);
                assert(forest.streams_at(false, e.1, k, e.0));
                assert(raw.contains(e));
                registry_listing_lists(raw);
                assert(registry_listing(raw).contains(e));
                assert(d.registered(c).contains(s));
                assert(pushed.stack()[l.stack().len() as int] == d);
                assert(pushed.layer_registers(l.stack().len() as int, c, s));
            }
            assert(pushed.registered(c).contains(s));
        }
    }
}

/// A delta without registry entries has no overlay either.
pub proof fn empty_delta_registries(forest: &ScopedForest, whole: bool)
    requires
        forest.wf(),
        forest.consistent(),
    ensures
        registry_listing(registry_events(forest.stream(whole))).len() == 0 ==> collected_tables(
            forest.stream(whole),
        ).scopes.len() == 0,
        registry_events(forest.stream(whole)).len() == 0 ==> registry_listing(
            registry_events(forest.stream(whole)),
        ).len() == 0,
{
    let t = collected_tables(forest.stream(whole));
    let raw = registry_events(forest.stream(whole));
    forest.collecting_lists_the_stream(whole);
    forest.streamed_registry_is_exact(whole);
    registry_listing_lists(raw);
    if t.scopes.len() > 0 {
        let s = t.scopes[0].scope;
        assert(t.scopes[0].pairs.len() > 0);
        let links = forest.streamed_links(Some(s), whole);
        let k = t.scopes[0].pairs[0].0;
        assert(links.contains_key(k));
        let e = (forest.shared(k), s);
        assert(forest.scopes_at(whole).contains(s)) by {
            forest.streamed_scopes_are_listed(s, k, whole);
        }
        assert(forest.streams_at(whole, e.1, k, e.0));
        assert(raw.contains(e));
        assert(registry_listing(raw).contains(e));
    }
}

// --- splicing --------------------------------------------------------------------------------------

/// Where a key leads is recorded as a parent somewhere, and has no parent
/// itself.
pub proof fn climbing_ends(tables: Seq<Seq<(NodeId, NodeId)>>, x: NodeId)
    requires
        stacked(tables),
    ensures
        climb(links_of(tables), 0, climb(links_of(tables), 0, x)) == climb(links_of(tables), 0, x),
        climb(links_of(tables), 0, x) != x ==> exists|i: int, p: int|
            0 <= i < tables.len() && 0 <= p < tables[i].len() && (#[trigger] tables[i][p]).1
                == climb(links_of(tables), 0, x),
    decreases x,
{
    let maps = links_of(tables);
    if climb(maps, 0, x) != x {
        assert(climbed(maps).contains_key(x));
        keys_lead_elsewhere(tables, x);
        let i = choose|i: int| 0 <= i < tables.len() && #[trigger] has_key(tables[i], x);
        let p = choose|p: int| 0 <= p < tables[i].len() && (#[trigger] tables[i][p]).0 == x;
        a_key_leads_where_its_parent_leads(tables, i, p);
        let v = tables[i][p].1;
        assert(v < x);
        climbing_ends(tables, v);
        if climb(maps, 0, v) == v {
            assert(tables[i][p].1 == climb(maps, 0, x));
        }
    }
}

/// **What a stack resolves to is fully resolved.**
pub proof fn a_stack_is_resolved(tables: Seq<Seq<(NodeId, NodeId)>>)
    requires
        stacked(tables),
    ensures
        resolved(climbed(links_of(tables))),
{
    let links = climbed(links_of(tables));
    assert forall|k: NodeId|
        #[trigger] links.contains_key(k)
    implies links[k] < k && !links.contains_key(links[k]) by {
        climbing_ends(tables, k);
        keys_lead_elsewhere(tables, k);
        let i = choose|i: int| 0 <= i < tables.len() && #[trigger] has_key(tables[i], k);
        let p = choose|p: int| 0 <= p < tables[i].len() && (#[trigger] tables[i][p]).0 == k;
        a_key_leads_where_its_parent_leads(tables, i, p);
    }
}

/// A part of a stack is a stack.
proof fn part_is_stacked(tables: Seq<Seq<(NodeId, NodeId)>>, from: int, to: int)
    requires
        stacked(tables),
        0 <= from <= to <= tables.len(),
    ensures
        stacked(tables.subrange(from, to)),
{
    let part = tables.subrange(from, to);
    assert forall|i: int| 0 <= i < part.len() implies ascending(#[trigger] part[i]) by {
        assert(ascending(tables[from + i]));
    }
    assert forall|i: int, p: int|
        0 <= i < part.len() && 0 <= p < part[i].len()
    implies (#[trigger] part[i][p]).1 < part[i][p].0 by {
        assert(tables[from + i][p].1 < tables[from + i][p].0);
    }
    assert forall|j: int, i: int, p: int|
        0 <= j < i < part.len() && 0 <= p < part[i].len()
    implies #[trigger] clear_of(part[j], part[i][p]) by {
        assert(clear_of(tables[from + j], tables[from + i][p]));
    }
    assert forall|i: int, p: int|
        0 <= i < part.len() && 0 <= p < part[i].len()
    implies !has_key(part[i], (#[trigger] part[i][p]).1) by {
        assert(!has_key(tables[from + i], tables[from + i][p].1));
    }
}

/// The tables after a splice.
pub open spec fn spliced_tables(
    tables: Seq<Seq<(NodeId, NodeId)>>,
    start: int,
    end: int,
    run: Seq<(NodeId, NodeId)>,
) -> Seq<Seq<(NodeId, NodeId)>> {
    tables.take(start).push(run) + tables.skip(end)
}

/// A key of the merged run is a key of a layer it merged, and its value a
/// value of one.
proof fn run_comes_from_layers(
    tables: Seq<Seq<(NodeId, NodeId)>>,
    start: int,
    end: int,
    run: Seq<(NodeId, NodeId)>,
    p: int,
)
    requires
        stacked(tables),
        0 <= start < end <= tables.len(),
        lists(run, climbed(links_of(tables.subrange(start, end)))),
        0 <= p < run.len(),
    ensures
        exists|i: int, q: int| start <= i < end && 0 <= q < tables[i].len() && (#[trigger] tables[i][q]).0 == run[p].0,
        exists|i: int, q: int| start <= i < end && 0 <= q < tables[i].len() && (#[trigger] tables[i][q]).1 == run[p].1,
        run[p].1 < run[p].0,
        !has_key(run, run[p].1),
{
    let middle = tables.subrange(start, end);
    part_is_stacked(tables, start, end);
    let links = climbed(links_of(middle));
    let (k, v) = run[p];
    assert(links.contains_key(run[p].0) && links[k] == v);
    keys_lead_elsewhere(middle, k);
    let i = choose|i: int| 0 <= i < middle.len() && #[trigger] has_key(middle[i], k);
    let q = choose|q: int| 0 <= q < middle[i].len() && (#[trigger] middle[i][q]).0 == k;
    assert(tables[start + i][q].0 == k);
    climbing_ends(middle, k);
    let (a, b) = choose|a: int, b: int| 0 <= a < middle.len() && 0 <= b < middle[a].len() && (#[trigger] middle[a][b]).1 == v;
    assert(tables[start + a][b].1 == v);
    a_stack_is_resolved(middle);
    assert(links[k] < k && !links.contains_key(links[k]));
    if has_key(run, v) {
        let c = choose|c: int| 0 <= c < run.len() && (#[trigger] run[c]).0 == v;
        assert(links.contains_key(run[c].0));
    }
}

proof fn splicing_stays_stacked(
    tables: Seq<Seq<(NodeId, NodeId)>>,
    start: int,
    end: int,
    run: Seq<(NodeId, NodeId)>,
)
    requires
        stacked(tables),
        0 <= start < end <= tables.len(),
        lists(run, climbed(links_of(tables.subrange(start, end)))),
    ensures
        stacked(spliced_tables(tables, start, end, run)),
{
    let all = spliced_tables(tables, start, end, run);
    let middle = tables.subrange(start, end);
    let links = climbed(links_of(middle));
    part_is_stacked(tables, start, end);
    let shift = end - start - 1;
    // A key of the run is a key of a middle layer.
    assert forall|x: NodeId|
        #[trigger] has_key(run, x)
    implies exists|i: int| start <= i < end && #[trigger] has_key(tables[i], x) by {
        let p = choose|p: int| 0 <= p < run.len() && (#[trigger] run[p]).0 == x;
        run_comes_from_layers(tables, start, end, run, p);
        let (i, q) = choose|i: int, q: int| start <= i < end && 0 <= q < tables[i].len() && (#[trigger] tables[i][q]).0 == run[p].0;
        assert(has_key(tables[i], x));
    }
    assert forall|i: int| 0 <= i < all.len() implies ascending(#[trigger] all[i]) by {
        if i < start {
            assert(ascending(tables[i]));
        } else if i > start {
            assert(all[i] == tables[i + shift]);
        }
    }
    assert forall|i: int, p: int|
        0 <= i < all.len() && 0 <= p < all[i].len()
    implies (#[trigger] all[i][p]).1 < all[i][p].0 by {
        if i < start {
            assert(tables[i][p].1 < tables[i][p].0);
        } else if i == start {
            run_comes_from_layers(tables, start, end, run, p);
        } else {
            assert(tables[i + shift][p].1 < tables[i + shift][p].0);
        }
    }
    assert forall|i: int, p: int|
        0 <= i < all.len() && 0 <= p < all[i].len()
    implies !has_key(all[i], (#[trigger] all[i][p]).1) by {
        if i < start {
            assert(!has_key(tables[i], tables[i][p].1));
        } else if i == start {
            run_comes_from_layers(tables, start, end, run, p);
        } else {
            assert(all[i] == tables[i + shift]);
            assert(!has_key(tables[i + shift], tables[i + shift][p].1));
        }
    }
    assert forall|j: int, i: int, p: int|
        0 <= j < i < all.len() && 0 <= p < all[i].len()
    implies #[trigger] clear_of(all[j], all[i][p]) by {
        if i < start {
            assert(clear_of(tables[j], tables[i][p]));
        } else if i == start {
            run_comes_from_layers(tables, start, end, run, p);
            let (a, q) = choose|a: int, q: int| start <= a < end && 0 <= q < tables[a].len() && (#[trigger] tables[a][q]).0 == run[p].0;
            assert(clear_of(tables[j], tables[a][q]));
            let (b, r) = choose|b: int, r: int| start <= b < end && 0 <= r < tables[b].len() && (#[trigger] tables[b][r]).1 == run[p].1;
            assert(clear_of(tables[j], tables[b][r]));
        } else {
            let t = i + shift;
            assert(all[i] == tables[t]);
            if j < start {
                assert(clear_of(tables[j], tables[t][p]));
            } else if j > start {
                assert(clear_of(tables[j + shift], tables[t][p]));
            } else {
                if has_key(run, tables[t][p].0) {
                    let a = choose|a: int| start <= a < end && #[trigger] has_key(tables[a], tables[t][p].0);
                    assert(clear_of(tables[a], tables[t][p]));
                }
                if has_key(run, tables[t][p].1) {
                    let a = choose|a: int| start <= a < end && #[trigger] has_key(tables[a], tables[t][p].1);
                    assert(clear_of(tables[a], tables[t][p]));
                }
            }
        }
    }
}

/// **A splice changes no answer**: a stack with a run of its layers replaced by
/// the layer that merged them resolves every node, in every scope, as before,
/// and its layers stay disjoint, so a merged run may be put back at the
/// position it came from.
pub proof fn a_splice_changes_no_answer(
    l: &LayeredBase,
    start: int,
    end: int,
    run: Arc<PuffinBase>,
    spliced: &LayeredBase,
)
    requires
        l.wf(),
        well_stacked(l),
        0 <= start < end <= l.stack().len(),
        spliced.stack() == l.stack().take(start).push(run) + l.stack().skip(end),
        forall|level: Option<ScopeId>|
            lists(
                #[trigger] layer_table(&*run, level),
                climbed(links_of(l.tables(level).subrange(start, end))),
            ),
    ensures
        well_stacked(spliced),
        spliced.shared_links() == l.shared_links(),
        forall|s: ScopeId| #[trigger] spliced.overlay_links(s) == l.overlay_links(s),
{
    assert forall|level: Option<ScopeId>| stacked(#[trigger] spliced.tables(level)) && spliced.links_at(level) == l.links_at(level) by {
        let tables = l.tables(level);
        let table = layer_table(&*run, level);
        let all = spliced_tables(tables, start, end, table);
        assert(spliced.tables(level) =~= all);
        assert(stacked(tables));
        splicing_stays_stacked(tables, start, end, table);
        let low = links_of(tables.take(start));
        let middle = links_of(tables.subrange(start, end));
        let high = links_of(tables.skip(end));
        part_is_stacked(tables, start, end);
        assert(tables.take(start) =~= tables.subrange(0, start));
        part_is_stacked(tables, 0, start);
        assert(tables.skip(end) =~= tables.subrange(end, tables.len() as int));
        part_is_stacked(tables, end, tables.len() as int);
        stacks_have_no_self_links(tables.take(start));
        stacks_have_no_self_links(tables.subrange(start, end));
        stacks_have_no_self_links(tables.skip(end));
        listed_table_serves(table, climbed(middle));
        assert(links_of(tables) =~= low + middle + high);
        assert(links_of(all) =~= low.push(climbed(middle)) + high);
        let a = climbed(links_of(all));
        let b = climbed(links_of(tables));
        assert forall|x: NodeId| #[trigger] a.contains_key(x) == b.contains_key(x) && (a.contains_key(x) ==> a[x] == b[x]) by {
            a_spliced_merge_resolves_alike(low, middle, high, x);
        }
        same_links(a, b);
    }
    assert(stacked(spliced.tables(None)));
    assert forall|s: ScopeId| #[trigger] spliced.overlay_links(s) == l.overlay_links(s) by {
        assert(stacked(spliced.tables(Some(s))));
    }
}

} // verus!
