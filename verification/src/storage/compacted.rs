//! Why compaction loses nothing: the compacted registry has every registration
//! at its live root and no other, and the compacted base answers as the stack.

use vstd::prelude::*;

use super::base::{opened, PuffinBase};
use super::codec::{base_blobs, scopes_strict};
use super::compact::{
    all_merged, compact_options, compacted_entries, compacted_registry, compacted_scopes,
    compacted_tables, due_is, least_run, least_run_is, live_entries, merged_runs, moved_entries,
    registry_runs, run_total, run_total_drops, woven, woven_upto, woven_upto_is,
};
use super::layered::LayeredBase;
use super::registry::{registry_ascends, registry_le};
use super::round_trip::{
    file_of, listed_table_serves, metas_of, pairs_for, pairs_for_is, written_base_is_served,
};
use super::sorted::{
    distinct, distinct_of_ascending, registry_listing, registry_listing_lists, registry_strict,
};
use super::stacking::stack_scopes_are_listed;
use crate::graph::base::{lists, resolved, settled, step_up, untouched, valid_base, RoutingBase};
use crate::graph::scoped::lists_scope;
use crate::graph::sorting::scopes_ascending;
use crate::graph::types::{NodeId, ScopeId};

verus! {

// --- merging sorted runs -----------------------------------------------------------------------

/// Some run has `e`.
pub open spec fn in_some_run(runs: Seq<Seq<(NodeId, ScopeId)>>, e: (NodeId, ScopeId)) -> bool {
    exists|i: int| 0 <= i < runs.len() && (#[trigger] runs[i]).contains(e)
}

proof fn drop_first_ascends(r: Seq<(NodeId, ScopeId)>)
    requires
        registry_ascends(r),
        r.len() > 0,
    ensures
        registry_ascends(r.drop_first()),
        forall|e: (NodeId, ScopeId)| r.contains(e) <==> e == r[0] || r.drop_first().contains(e),
        forall|e: (NodeId, ScopeId)| r.contains(e) ==> registry_le(r[0], e),
{
    let d = r.drop_first();
    assert forall|i: int, j: int|
        0 <= i < j < d.len()
    implies registry_le(#[trigger] d[i], #[trigger] d[j]) by {
        assert(registry_le(r[i + 1], r[j + 1]));
    }
    assert forall|e: (NodeId, ScopeId)| r.contains(e) <==> e == r[0] || d.contains(e) by {
        if r.contains(e) && e != r[0] {
            let i = r.index_of(e);
            assert(d[i - 1] == e);
        }
        if d.contains(e) {
            let i = d.index_of(e);
            assert(r[i + 1] == e);
        }
    }
    assert forall|e: (NodeId, ScopeId)| r.contains(e) implies registry_le(r[0], e) by {
        let i = r.index_of(e);
        if i > 0 {
            assert(registry_le(r[0], r[i]));
        }
    }
}

/// Merging sorted runs keeps every entry and sorts them.
proof fn merged_runs_ascend(runs: Seq<Seq<(NodeId, ScopeId)>>, left: nat)
    requires
        forall|i: int| 0 <= i < runs.len() ==> registry_ascends(#[trigger] runs[i]),
        left == run_total(runs, runs.len()),
    ensures
        registry_ascends(merged_runs(runs, left)),
        forall|e: (NodeId, ScopeId)| #[trigger] merged_runs(runs, left).contains(e) <==> in_some_run(runs, e),
    decreases left,
{
    let out = merged_runs(runs, left);
    least_run_is(runs, runs.len());
    match least_run(runs, runs.len()) {
        None => {
            assert forall|e: (NodeId, ScopeId)| #[trigger] out.contains(e) <==> in_some_run(runs, e) by {
                if in_some_run(runs, e) {
                    let i = choose|i: int| 0 <= i < runs.len() && (#[trigger] runs[i]).contains(e);
                    assert(runs[i].len() == 0);
                }
            }
        },
        Some(i) => {
            let next = runs.update(i, runs[i].drop_first());
            run_total_drops(runs, i, runs.len());
            drop_first_ascends(runs[i]);
            assert forall|j: int|
                0 <= j < next.len()
            implies registry_ascends(#[trigger] next[j]) by {
                if j != i {
                    assert(registry_ascends(runs[j]));
                }
            }
            merged_runs_ascend(next, (left - 1) as nat);
            let rest = merged_runs(next, (left - 1) as nat);
            let first = runs[i][0];
            assert(out == seq![first] + rest);
            assert forall|e: (NodeId, ScopeId)| #[trigger] out.contains(e) <==> in_some_run(runs, e) by {
                if out.contains(e) {
                    let a = out.index_of(e);
                    if a == 0 {
                        assert(runs[i].contains(e));
                    } else {
                        assert(rest[a - 1] == e);
                        assert(rest.contains(e));
                        let j = choose|j: int| 0 <= j < next.len() && (#[trigger] next[j]).contains(e);
                        assert(runs[j].contains(e));
                    }
                }
                if in_some_run(runs, e) {
                    let j = choose|j: int| 0 <= j < runs.len() && (#[trigger] runs[j]).contains(e);
                    if j == i && e == first {
                        assert(out[0] == e);
                    } else {
                        assert(next[j].contains(e));
                        assert(rest.contains(e));
                        let a = rest.index_of(e);
                        assert(out[a + 1] == e);
                    }
                }
            }
            assert forall|a: int, b: int|
                0 <= a < b < out.len()
            implies registry_le(#[trigger] out[a], #[trigger] out[b]) by {
                if a > 0 {
                    assert(registry_le(rest[a - 1], rest[b - 1]));
                } else {
                    let e = rest[b - 1];
                    assert(rest.contains(e));
                    let j = choose|j: int| 0 <= j < next.len() && (#[trigger] next[j]).contains(e);
                    assert(runs[j].contains(e));
                    assert(runs[j].len() > 0);
                    drop_first_ascends(runs[j]);
                    assert(registry_le(first, runs[j][0]));
                    assert(registry_le(runs[j][0], e));
                }
            }
        },
    }
}

// --- weaving the corrections in ----------------------------------------------------------------

proof fn live_entries_are(shared: Map<NodeId, NodeId>, m: Seq<(NodeId, ScopeId)>)
    requires
        registry_ascends(m),
    ensures
        registry_ascends(live_entries(shared, m)),
        forall|e: (NodeId, ScopeId)| #[trigger] live_entries(shared, m).contains(e) <==> m.contains(e) && !shared.contains_key(e.0),
    decreases m.len(),
{
    let out = live_entries(shared, m);
    if m.len() > 0 {
        let front = m.drop_last();
        front_ascends(m);
        live_entries_are(shared, front);
        let before = live_entries(shared, front);
        let last = m.last();
        assert forall|e: (NodeId, ScopeId)| #[trigger] out.contains(e) <==> m.contains(e) && !shared.contains_key(e.0) by {
            contains_last(m, e);
            if out.len() > before.len() {
                assert(out =~= before.push(last));
                contains_last(out, e);
                assert(out.drop_last() =~= before);
            }
        }
        assert forall|a: int, b: int|
            0 <= a < b < out.len()
        implies registry_le(#[trigger] out[a], #[trigger] out[b]) by {
            if b < before.len() {
                assert(registry_le(before[a], before[b]));
            } else {
                assert(before.contains(before[a]));
                assert(front.contains(before[a]));
                let i = front.index_of(before[a]);
                assert(registry_le(m[i], m[m.len() - 1]));
            }
        }
    }
}

proof fn front_ascends(m: Seq<(NodeId, ScopeId)>)
    requires
        registry_ascends(m),
        m.len() > 0,
    ensures
        registry_ascends(m.drop_last()),
{
    let f = m.drop_last();
    assert forall|i: int, j: int|
        0 <= i < j < f.len()
    implies registry_le(#[trigger] f[i], #[trigger] f[j]) by {
        assert(registry_le(m[i], m[j]));
    }
}

proof fn contains_last(m: Seq<(NodeId, ScopeId)>, e: (NodeId, ScopeId))
    requires
        m.len() > 0,
    ensures
        m.contains(e) <==> m.drop_last().contains(e) || e == m.last(),
{
    let f = m.drop_last();
    if m.contains(e) {
        let i = m.index_of(e);
        if i < f.len() {
            assert(f[i] == e);
        }
    }
    if f.contains(e) {
        let i = f.index_of(e);
        assert(m[i] == e);
    }
    if e == m.last() {
        assert(m[m.len() - 1] == e);
    }
}

proof fn moved_entries_are(shared: Map<NodeId, NodeId>, m: Seq<(NodeId, ScopeId)>)
    ensures
        forall|e: (NodeId, ScopeId)| #[trigger] moved_entries(shared, m).contains(e) <==> exists|r: NodeId| #[trigger] moved_from(shared, m, r, e),
    decreases m.len(),
{
    let out = moved_entries(shared, m);
    if m.len() > 0 {
        let front = m.drop_last();
        moved_entries_are(shared, front);
        let before = moved_entries(shared, front);
        let last = m.last();
        assert forall|e: (NodeId, ScopeId)| #[trigger] out.contains(e) <==> exists|r: NodeId| #[trigger] moved_from(shared, m, r, e) by {
            if out.len() > before.len() {
                contains_last(out, e);
                assert(out.drop_last() =~= before);
            }
            if before.contains(e) {
                let r = choose|r: NodeId| #[trigger] moved_from(shared, front, r, e);
                contains_last(m, (r, e.1));
                assert(moved_from(shared, m, r, e));
            }
            if out.contains(e) && !before.contains(e) {
                contains_last(m, (last.0, e.1));
                assert(moved_from(shared, m, last.0, e));
            }
            if exists|r: NodeId| #[trigger] moved_from(shared, m, r, e) {
                let r = choose|r: NodeId| #[trigger] moved_from(shared, m, r, e);
                contains_last(m, (r, e.1));
                if front.contains((r, e.1)) {
                    assert(moved_from(shared, front, r, e));
                    assert(before.contains(e));
                    let j = before.index_of(e);
                    assert(out[j] == e);
                } else {
                    assert(out[out.len() - 1] == e);
                }
            }
        }
    }
}

/// `e` is an entry of `m` whose root was absorbed.
pub open spec fn moved_from(
    shared: Map<NodeId, NodeId>,
    m: Seq<(NodeId, ScopeId)>,
    r: NodeId,
    e: (NodeId, ScopeId),
) -> bool {
    m.contains((r, e.1)) && shared.contains_key(r) && shared[r] == e.0
}

/// Weaving sorted corrections into sorted entries keeps them sorted.
proof fn woven_ascends(m: Seq<(NodeId, ScopeId)>, fixes: Seq<(NodeId, ScopeId)>)
    requires
        registry_ascends(m),
        registry_ascends(fixes),
    ensures
        registry_ascends(woven(m, fixes)),
        m.len() > 0 ==> woven(m, fixes).len() > 0 && woven(m, fixes).last() == m.last(),
        m.len() == 0 ==> woven(m, fixes).len() == 0 && woven_upto(m, fixes) == 0,
        forall|i: int| woven_upto(m, fixes) <= i < fixes.len() && m.len() > 0 ==> !registry_le(#[trigger] fixes[i], m.last()),
        forall|e: (NodeId, ScopeId)| #[trigger] woven(m, fixes).contains(e) <==> m.contains(e) || fixes.take(woven_upto(m, fixes)).contains(e),
    decreases m.len(),
{
    woven_upto_is(m, fixes);
    if m.len() > 0 {
        let front = m.drop_last();
        front_ascends(m);
        woven_ascends(front, fixes);
        woven_upto_is(front, fixes);
        let before = woven(front, fixes);
        let from = woven_upto(front, fixes);
        let e = m.last();
        due_is(fixes, from, e);
        let to = woven_upto(m, fixes);
        let part = fixes.subrange(from, to);
        let all = woven(m, fixes);
        assert(all == (before + part).push(e));
        if front.len() > 0 {
            assert(registry_le(m[front.len() - 1], m[front.len() as int]));
        }
        assert forall|i: int|
            to <= i < fixes.len()
        implies !registry_le(#[trigger] fixes[i], e) by {
            if i > to {
                assert(registry_le(fixes[to], fixes[i]));
            }
        }
        assert forall|a: int, b: int|
            0 <= a < b < all.len()
        implies registry_le(#[trigger] all[a], #[trigger] all[b]) by {
            let n = before.len() as int;
            let k = part.len() as int;
            if b < n {
                assert(registry_le(before[a], before[b]));
            } else if a >= n && b < n + k {
                assert(registry_le(fixes[from + a - n], fixes[from + b - n]));
            } else if a >= n && a < n + k {
                assert(registry_le(fixes[from + a - n], e));
            } else if a < n {
                // Everything before is at most the last entry before.
                let last = before.last();
                if a < n - 1 {
                    assert(registry_le(before[a], before[n - 1]));
                }
                assert(registry_le(before[a], last));
                if front.len() > 0 {
                    assert(last == front.last());
                    if b < n + k {
                        assert(!registry_le(fixes[from + b - n], front.last()));
                    }
                }
            }
        }
        assert forall|x: (NodeId, ScopeId)| #[trigger] all.contains(x) <==> m.contains(x) || fixes.take(to).contains(x) by {
            contains_last(m, x);
            contains_last(all, x);
            assert(all.drop_last() =~= before + part);
            let low = fixes.take(from);
            let taken = fixes.take(to);
            assert(taken =~= low + part);
            contains_join(before, part, x);
            contains_join(low, part, x);
        }
    } else {
        assert forall|x: (NodeId, ScopeId)| #[trigger] woven(m, fixes).contains(x) <==> m.contains(x) || fixes.take(woven_upto(m, fixes)).contains(x) by {
            assert(fixes.take(0) =~= Seq::empty());
        }
    }
}

proof fn contains_join(a: Seq<(NodeId, ScopeId)>, b: Seq<(NodeId, ScopeId)>, x: (NodeId, ScopeId))
    ensures
        (a + b).contains(x) <==> a.contains(x) || b.contains(x),
{
    let all = a + b;
    if all.contains(x) {
        let i = all.index_of(x);
        if i < a.len() {
            assert(a[i] == x);
        } else {
            assert(b[i - a.len()] == x);
        }
    }
    if a.contains(x) {
        let i = a.index_of(x);
        assert(all[i] == x);
    }
    if b.contains(x) {
        let i = b.index_of(x);
        assert(all[a.len() + i] == x);
    }
}

/// `e` is an entry of `m` at the root it is now part of.
pub open spec fn registered_from(
    shared: Map<NodeId, NodeId>,
    m: Seq<(NodeId, ScopeId)>,
    r: NodeId,
    e: (NodeId, ScopeId),
) -> bool {
    m.contains((r, e.1)) && step_up(shared, r) == e.0
}

/// **A compacted registry is exact**: each registration at the live root of
/// the root it was recorded on, none lost and none invented, each once and in
/// ascending order.
pub proof fn compacted_entries_are_exact(shared: Map<NodeId, NodeId>, m: Seq<(NodeId, ScopeId)>)
    requires
        registry_ascends(m),
    ensures
        registry_strict(compacted_entries(shared, m)),
        forall|e: (NodeId, ScopeId)| #[trigger] compacted_entries(shared, m).contains(e) <==> exists|r: NodeId| #[trigger] registered_from(shared, m, r, e),
{
    let raw = moved_entries(shared, m);
    let fixes = registry_listing(raw);
    let kept = live_entries(shared, m);
    registry_listing_lists(raw);
    moved_entries_are(shared, m);
    live_entries_are(shared, m);
    woven_ascends(kept, fixes);
    woven_upto_is(kept, fixes);
    let n = woven_upto(kept, fixes);
    let body = woven(kept, fixes);
    let tail = fixes.skip(n);
    let all = body + tail;
    assert forall|a: int, b: int|
        0 <= a < b < all.len()
    implies registry_le(#[trigger] all[a], #[trigger] all[b]) by {
        let k = body.len() as int;
        if b < k {
            assert(registry_le(body[a], body[b]));
        } else if a >= k {
            assert(registry_le(fixes[n + a - k], fixes[n + b - k]));
        } else {
            if a < k - 1 {
                assert(registry_le(body[a], body[k - 1]));
            }
            assert(!registry_le(fixes[n + b - k], kept.last()));
        }
    }
    distinct_of_ascending(all);
    let out = compacted_entries(shared, m);
    assert(out == distinct(all));
    assert forall|e: (NodeId, ScopeId)| #[trigger] out.contains(e) <==> exists|r: NodeId| #[trigger] registered_from(shared, m, r, e) by {
        contains_join(body, tail, e);
        contains_join(fixes.take(n), tail, e);
        assert(fixes =~= fixes.take(n) + tail);
        assert(out.contains(e) <==> all.contains(e));
        assert(all.contains(e) <==> kept.contains(e) || fixes.contains(e));
        assert(fixes.contains(e) <==> raw.contains(e));
        if kept.contains(e) {
            assert(registered_from(shared, m, e.0, e));
        }
        if raw.contains(e) {
            let r = choose|r: NodeId| #[trigger] moved_from(shared, m, r, e);
            assert(registered_from(shared, m, r, e));
        }
        if exists|r: NodeId| #[trigger] registered_from(shared, m, r, e) {
            let r = choose|r: NodeId| #[trigger] registered_from(shared, m, r, e);
            if shared.contains_key(r) {
                assert(moved_from(shared, m, r, e));
                assert(raw.contains(e));
            } else {
                assert(r == e.0);
                assert((r, e.1) == e);
                assert(kept.contains(e));
            }
        }
    }
}

// --- the compacted base -----------------------------------------------------------------------------

/// The registry of a layer is sorted, and lookups answer what it lists.
pub open spec fn faithful_registry(b: &PuffinBase) -> bool {
    &&& registry_ascends(b.registry_entries())
    &&& forall|root: NodeId, s: ScopeId|
        (#[trigger] b.registered(root).contains(s)) <==> b.registry_entries().contains((root, s))
}

/// Every layer's registry is faithful.
pub open spec fn faithful_stack(l: &LayeredBase) -> bool {
    forall|i: int| 0 <= i < l.stack().len() ==> faithful_registry(&*(#[trigger] l.stack()[i]))
}

/// **No registration is lost and none invented**: after compaction a scope is
/// registered on a root exactly where some layer had it registered on a root
/// that now resolves there.
pub proof fn compaction_keeps_every_registration(l: &LayeredBase)
    requires
        l.wf(),
        faithful_stack(l),
    ensures
        registry_strict(compacted_registry(l)),
        forall|root: NodeId, s: ScopeId| #[trigger]
            compacted_registry(l).contains((root, s)) <==> exists|r: NodeId| #[trigger]
                l.registered(r).contains(s) && step_up(l.shared_links(), r) == root,
{
    let runs = registry_runs(l);
    let m = all_merged(runs);
    let shared = l.shared_links();
    assert forall|i: int| 0 <= i < runs.len() implies registry_ascends(#[trigger] runs[i]) by {
        assert(faithful_registry(&*l.stack()[i]));
    }
    merged_runs_ascend(runs, run_total(runs, runs.len()));
    compacted_entries_are_exact(shared, m);
    assert forall|r: NodeId, s: ScopeId| #[trigger] m.contains((r, s)) <==> l.registered(r).contains(s) by {
        if m.contains((r, s)) {
            assert(in_some_run(runs, (r, s)));
            let i = choose|i: int| 0 <= i < runs.len() && (#[trigger] runs[i]).contains((r, s));
            assert(faithful_registry(&*l.stack()[i]));
            assert(l.stack()[i].registered(r).contains(s));
            assert(l.layer_registers(i, r, s));
        }
        if l.registered(r).contains(s) {
            let i = choose|i: int| #[trigger] l.layer_registers(i, r, s);
            assert(faithful_registry(&*l.stack()[i]));
            assert(runs[i].contains((r, s)));
            assert(in_some_run(runs, (r, s)));
        }
    }
    assert forall|root: NodeId, s: ScopeId| #[trigger]
        compacted_registry(l).contains((root, s)) <==> exists|r: NodeId| #[trigger]
            l.registered(r).contains(s) && step_up(shared, r) == root by {
        let e = (root, s);
        if compacted_registry(l).contains(e) {
            let r = choose|r: NodeId| #[trigger] registered_from(shared, m, r, e);
            assert(m.contains((r, s)));
            assert(l.registered(r).contains(s) && step_up(shared, r) == root);
        }
        if exists|r: NodeId| #[trigger] l.registered(r).contains(s) && step_up(shared, r) == root {
            let r = choose|r: NodeId| #[trigger] l.registered(r).contains(s) && step_up(shared, r) == root;
            assert(m.contains((r, s)));
            assert(registered_from(shared, m, r, e));
        }
    }
}

proof fn compacted_scopes_are(l: &LayeredBase, scopes: Seq<ScopeId>)
    requires
        scopes_ascending(scopes),
    ensures
        scopes_strict(compacted_scopes(l, scopes)),
        forall|i: int| 0 <= i < compacted_scopes(l, scopes).len() ==> {
            let s = #[trigger] compacted_scopes(l, scopes)[i];
            s.pairs == l.overlay_stream(s.scope) && s.pairs.len() > 0 && scopes.contains(s.scope)
        },
        forall|s: ScopeId| #[trigger] scopes.contains(s) && l.overlay_stream(s).len() > 0 ==> lists_scope(compacted_scopes(l, scopes), s),
    decreases scopes.len(),
{
    let out = compacted_scopes(l, scopes);
    if scopes.len() > 0 {
        let front = scopes.drop_last();
        assert forall|i: int, j: int|
            0 <= i < j < front.len()
        implies #[trigger] front[i] < #[trigger] front[j] by {
            assert(scopes[i] < scopes[j]);
        }
        compacted_scopes_are(l, front);
        let before = compacted_scopes(l, front);
        assert forall|i: int| 0 <= i < out.len() implies {
            let s = #[trigger] out[i];
            s.pairs == l.overlay_stream(s.scope) && s.pairs.len() > 0 && scopes.contains(s.scope)
        } by {
            if i < before.len() {
                assert(out[i] == before[i]);
                let a = front.index_of(before[i].scope);
                assert(scopes[a] == before[i].scope);
            } else {
                assert(scopes[scopes.len() - 1] == out[i].scope);
            }
        }
        assert forall|i: int, j: int|
            0 <= i < j < out.len()
        implies (#[trigger] out[i]).scope < (#[trigger] out[j]).scope by {
            assert(out[i] == before[i]);
            if j < before.len() {
                assert(before[i].scope < before[j].scope);
            } else {
                let a = front.index_of(before[i].scope);
                assert(scopes[a] < scopes[scopes.len() - 1]);
            }
        }
        assert forall|s: ScopeId|
            #[trigger] scopes.contains(s) && l.overlay_stream(s).len() > 0
        implies lists_scope(out, s) by {
            let a = scopes.index_of(s);
            if a < front.len() {
                assert(front[a] == s);
                assert(front.contains(s));
                assert(lists_scope(before, s));
                let i = choose|i: int| 0 <= i < before.len() && (#[trigger] before[i]).scope == s;
                assert(out[i].scope == s);
            } else {
                assert(out[before.len() as int].scope == s);
            }
        }
    }
}

/// What a base serves that serves the compacted tables.
proof fn compacted_overlay(l: &LayeredBase, s: ScopeId)
    requires
        l.wf(),
        valid_base(l),
    ensures
        pairs_for(compacted_tables(l).scopes, s) == l.overlay_stream(s),
        lists_scope(compacted_tables(l).scopes, s) <==> l.overlay_stream(s).len() > 0,
{
    let scopes = compacted_tables(l).scopes;
    stack_scopes_are_listed(l);
    compacted_scopes_are(l, l.scope_list());
    pairs_for_is(scopes, s);
    let pairs = l.overlay_stream(s);
    if lists_scope(scopes, s) {
        let i = choose|i: int| 0 <= i < scopes.len() && (#[trigger] scopes[i]).scope == s;
        assert(scopes[i].pairs == pairs);
    } else {
        if pairs.len() > 0 {
            assert(lists(l.overlay_stream(s), l.overlay_links(s)));
            assert(l.overlay_links(s).contains_key(pairs[0].0));
            assert(l.scope_list().contains(s));
        }
        assert(pairs =~= Seq::empty());
    }
}

/// **Compaction changes no answer**: a base opened from the file of the
/// compacted blobs is one layer that resolves every node, in every scope, as
/// the whole stack did, with every registration kept, and is a valid base.
pub proof fn a_compacted_stack_answers_alike(
    l: &LayeredBase,
    b: &PuffinBase,
    seq: i64,
    footer: Seq<u8>,
)
    requires
        l.wf(),
        valid_base(l),
        faithful_stack(l),
        b.wf(),
        file_of(
            b.content(),
            compacted_tables(l),
            compacted_registry(l),
            compact_options(),
            seq,
            footer,
        ),
        b.represents(
            opened(
                b.content(),
                metas_of(
                    base_blobs(compacted_tables(l), compacted_registry(l), compact_options(), seq),
                ),
            )->Ok_0,
        ),
    ensures
        b.shared_links() == l.shared_links(),
        forall|s: ScopeId| #[trigger] b.overlay_links(s) == l.overlay_links(s),
        forall|root: NodeId, s: ScopeId| #[trigger]
            b.registered(root).contains(s) <==> exists|r: NodeId| #[trigger]
                l.registered(r).contains(s) && step_up(l.shared_links(), r) == root,
        faithful_registry(b),
        valid_base(b),
{
    let t = compacted_tables(l);
    let entries = compacted_registry(l);
    compaction_keeps_every_registration(l);
    stack_scopes_are_listed(l);
    compacted_scopes_are(l, l.scope_list());
    if t.scopes.len() > 0 {
        // A scope with a link is registered where the link ends.
        let s = t.scopes[0].scope;
        let pairs = t.scopes[0].pairs;
        assert(pairs == l.overlay_stream(s));
        assert(lists(l.overlay_stream(s), l.overlay_links(s)));
        let k = pairs[0].0;
        assert(l.overlay_links(s).contains_key(k));
        let c = step_up(l.shared_links(), k);
        assert(resolved(l.shared_links()));
        assert(!l.shared_links().contains_key(c));
        assert(!untouched(l.shared_links(), l.overlay_links(s), c));
        assert(l.registered(c).contains(s));
        assert(step_up(l.shared_links(), c) == c);
        assert(entries.contains((c, s)));
    }
    written_base_is_served(b, t, entries, compact_options(), seq, footer);
    assert(lists(l.shared_stream(), l.shared_links()));
    listed_table_serves(t.global, l.shared_links());
    assert forall|s: ScopeId| #[trigger] b.overlay_links(s) == l.overlay_links(s) by {
        compacted_overlay(l, s);
        assert(b.overlay_pairs(s) == pairs_for(t.scopes, s));
        assert(lists(l.overlay_stream(s), l.overlay_links(s)));
        listed_table_serves(l.overlay_stream(s), l.overlay_links(s));
    }
    assert forall|s: ScopeId| lists(#[trigger] b.overlay_stream(s), b.overlay_links(s)) by {
        compacted_overlay(l, s);
        assert(b.overlay_pairs(s) == pairs_for(t.scopes, s));
        assert(lists(l.overlay_stream(s), l.overlay_links(s)));
        listed_table_serves(l.overlay_stream(s), l.overlay_links(s));
    }
    assert forall|s: ScopeId| #[trigger] resolved(b.overlay_links(s)) by {
        assert(resolved(l.overlay_links(s)));
    }
    assert forall|s: ScopeId| settled(b.shared_links(), #[trigger] b.overlay_links(s)) by {
        assert(settled(l.shared_links(), l.overlay_links(s)));
    }
    let list = b.scope_list();
    assert forall|i: int, j: int|
        0 <= i < j < list.len()
    implies #[trigger] list[i] < #[trigger] list[j] by {
        assert(b.overlay_tables()[i].scope < b.overlay_tables()[j].scope);
    }
    assert forall|s: ScopeId, k: NodeId|
        #[trigger] b.overlay_links(s).contains_key(k)
    implies b.scope_list().contains(s) by {
        compacted_overlay(l, s);
        assert(l.overlay_links(s).contains_key(k));
        assert(lists(l.overlay_stream(s), l.overlay_links(s)));
        assert(l.overlay_stream(s).len() > 0);
        assert(lists_scope(t.scopes, s));
    }
    assert forall|s: ScopeId, c: NodeId|
        !b.shared_links().contains_key(c) && !(#[trigger] b.registered(c).contains(s)) implies untouched(
        b.shared_links(),
        b.overlay_links(s),
        c,
    ) by {
        if l.registered(c).contains(s) {
            assert(step_up(l.shared_links(), c) == c);
            assert(entries.contains((c, s)));
        }
        assert(untouched(l.shared_links(), l.overlay_links(s), c));
    }
    assert(faithful_registry(b)) by {
        super::round_trip::strict_ascends(entries);
    }
    assert forall|root: NodeId, s: ScopeId| #[trigger]
        b.registered(root).contains(s) <==> exists|r: NodeId| #[trigger]
            l.registered(r).contains(s) && step_up(l.shared_links(), r) == root by {
        assert(entries.contains((root, s)) <==> b.registered(root).contains(s));
    }
}

} // verus!
