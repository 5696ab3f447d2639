//! Sorting of plain ids.

use vstd::prelude::*;

use super::types::{NodeId, ScopeId};

verus! {

/// Each id is larger than the ones before it.
pub open spec fn strictly_ascending(v: Seq<NodeId>) -> bool {
    forall|i: int, j: int| 0 <= i < j < v.len() ==> #[trigger] v[i] < #[trigger] v[j]
}

/// Each scope is larger than the ones before it.
pub open spec fn scopes_ascending(v: Seq<ScopeId>) -> bool {
    forall|i: int, j: int| 0 <= i < j < v.len() ==> #[trigger] v[i] < #[trigger] v[j]
}

/// `<[u64]>::sort_unstable`: the same ids in ascending order.
#[verifier::external_body]
fn sort_node_ids(v: &mut Vec<NodeId>)
    ensures
        final(v)@.to_multiset() == old(v)@.to_multiset(),
        forall|i: int, j: int| 0 <= i < j < final(v)@.len() ==> final(v)@[i] <= final(v)@[j],
{
    v.sort_unstable();
}

/// `<[u32]>::sort_unstable`: the same ids in ascending order.
#[verifier::external_body]
fn sort_scope_ids(v: &mut Vec<ScopeId>)
    ensures
        final(v)@.to_multiset() == old(v)@.to_multiset(),
        forall|i: int, j: int| 0 <= i < j < final(v)@.len() ==> final(v)@[i] <= final(v)@[j],
{
    v.sort_unstable();
}

proof fn same_elements<T>(a: Seq<T>, b: Seq<T>)
    requires
        a.to_multiset() == b.to_multiset(),
    ensures
        a.to_set() == b.to_set(),
        a.no_duplicates() ==> b.no_duplicates(),
        a.len() == b.len(),
{
    a.to_multiset_ensures();
    b.to_multiset_ensures();
    assert forall|x: T| a.to_set().contains(x) == b.to_set().contains(x) by {
        assert(a.contains(x) <==> a.to_multiset().count(x) > 0);
        assert(b.contains(x) <==> b.to_multiset().count(x) > 0);
    }
    assert(a.to_set() =~= b.to_set());
    if a.no_duplicates() {
        a.lemma_multiset_has_no_duplicates();
        assert(b.to_multiset().len() == b.len());
        b.lemma_multiset_has_no_duplicates_conv();
    }
}

/// Puts distinct node ids in ascending order.
pub fn sort_nodes(v: &mut Vec<NodeId>)
    requires
        old(v)@.no_duplicates(),
    ensures
        final(v)@.to_set() == old(v)@.to_set(),
        strictly_ascending(final(v)@),
        final(v)@.len() == old(v)@.len(),
{
    sort_node_ids(v);
    proof {
        same_elements(old(v)@, v@);
        assert forall|i: int, j: int| 0 <= i < j < v@.len() implies #[trigger] v@[i]
            < #[trigger] v@[j] by {
            assert(v@[i] != v@[j]);
        }
    }
}

/// Puts distinct scope ids in ascending order.
pub fn sort_scopes(v: &mut Vec<ScopeId>)
    requires
        old(v)@.no_duplicates(),
    ensures
        final(v)@.to_set() == old(v)@.to_set(),
        scopes_ascending(final(v)@),
        final(v)@.len() == old(v)@.len(),
{
    sort_scope_ids(v);
    proof {
        same_elements(old(v)@, v@);
        assert forall|i: int, j: int| 0 <= i < j < v@.len() implies #[trigger] v@[i]
            < #[trigger] v@[j] by {
            assert(v@[i] != v@[j]);
        }
    }
}

/// An ascending list of ids is determined by the set of them.
pub proof fn ascending_lists_agree(a: Seq<NodeId>, b: Seq<NodeId>)
    requires
        strictly_ascending(a),
        strictly_ascending(b),
        a.to_set() == b.to_set(),
    ensures
        a == b,
    decreases a.len(),
{
    if a.len() == 0 {
        if b.len() > 0 {
            assert(b.to_set().contains(b[0]));
            assert(a.contains(b[0]));
        }
        assert(a =~= b);
    } else {
        assert(a.to_set().contains(a.last()));
        assert(b.contains(a.last()));
        assert(b.to_set().contains(b.last()));
        assert(a.contains(b.last()));
        let i = b.index_of(a.last());
        let j = a.index_of(b.last());
        assert(a.last() == b.last()) by {
            if i < b.len() - 1 {
                assert(b[i] < b[b.len() - 1]);
                assert(a[j] > a[a.len() - 1]);
            }
        }
        let a2 = a.drop_last();
        let b2 = b.drop_last();
        assert(a2.to_set() =~= b2.to_set()) by {
            assert forall|x: NodeId| a2.to_set().contains(x) == b2.to_set().contains(x) by {
                if a2.contains(x) {
                    let k = a2.index_of(x);
                    assert(a[k] == x && a[k] < a[a.len() - 1]);
                    assert(a.to_set().contains(x));
                    assert(b.contains(x));
                    let m = b.index_of(x);
                    assert(b2[m] == x);
                }
                if b2.contains(x) {
                    let k = b2.index_of(x);
                    assert(b[k] == x && b[k] < b[b.len() - 1]);
                    assert(b.to_set().contains(x));
                    assert(a.contains(x));
                    let m = a.index_of(x);
                    assert(a2[m] == x);
                }
            }
        }
        ascending_lists_agree(a2, b2);
        assert(a =~= a2.push(a.last()));
        assert(b =~= b2.push(b.last()));
    }
}

/// The ids of `s` in ascending order.
pub open spec fn in_order(s: Set<NodeId>) -> Seq<NodeId> {
    choose|v: Seq<NodeId>| #[trigger] strictly_ascending(v) && v.to_set() == s
}

/// An ascending list is the ordering of its own ids.
pub proof fn in_order_is(v: Seq<NodeId>)
    requires
        strictly_ascending(v),
    ensures
        in_order(v.to_set()) == v,
{
    let w = in_order(v.to_set());
    assert(strictly_ascending(w) && w.to_set() == v.to_set());
    ascending_lists_agree(v, w);
}

/// The scopes of `s` in ascending order.
pub open spec fn scopes_in_order(s: Set<ScopeId>) -> Seq<ScopeId> {
    choose|v: Seq<ScopeId>| #[trigger] scopes_ascending(v) && v.to_set() == s
}

/// An ascending list of scopes is the ordering of its own ids.
pub proof fn scopes_in_order_is(v: Seq<ScopeId>)
    requires
        scopes_ascending(v),
    ensures
        scopes_in_order(v.to_set()) == v,
{
    let w = scopes_in_order(v.to_set());
    assert(scopes_ascending(w) && w.to_set() == v.to_set());
    let widen = |s: ScopeId| s as NodeId;
    let a = v.map_values(widen);
    let b = w.map_values(widen);
    assert(a.to_set() =~= b.to_set()) by {
        assert forall|x: NodeId| a.to_set().contains(x) == b.to_set().contains(x) by {
            if a.contains(x) {
                let i = a.index_of(x);
                assert(v.to_set().contains(v[i]));
                assert(w.contains(v[i]));
                let j = w.index_of(v[i]);
                assert(b[j] == x);
            }
            if b.contains(x) {
                let i = b.index_of(x);
                assert(w.to_set().contains(w[i]));
                assert(v.contains(w[i]));
                let j = v.index_of(w[i]);
                assert(a[j] == x);
            }
        }
    }
    ascending_lists_agree(a, b);
    assert(v =~= w) by {
        assert forall|i: int| 0 <= i < v.len() implies v[i] == w[i] by {
            assert(a[i] == b[i]);
        }
    }
}

/// `v` with `x` put where it belongs.
pub open spec fn inserted(v: Seq<NodeId>, x: NodeId) -> Seq<NodeId>
    decreases v.len(),
{
    if v.len() == 0 || v.last() < x {
        v.push(x)
    } else {
        inserted(v.drop_last(), x).push(v.last())
    }
}

proof fn inserting_keeps_order(v: Seq<NodeId>, x: NodeId)
    requires
        strictly_ascending(v),
        !v.contains(x),
    ensures
        strictly_ascending(inserted(v, x)),
        forall|y: NodeId| #[trigger] inserted(v, x).contains(y) <==> v.contains(y) || y == x,
    decreases v.len(),
{
    let w = inserted(v, x);
    if v.len() == 0 || v.last() < x {
        assert forall|y: NodeId| #[trigger] w.contains(y) <==> v.contains(y) || y == x by {
            if v.contains(y) {
                assert(w[v.index_of(y)] == y);
            }
            if y == x {
                assert(w[v.len() as int] == x);
            }
        }
        assert forall|i: int, j: int| 0 <= i < j < w.len() implies #[trigger] w[i]
            < #[trigger] w[j] by {
            if j == v.len() && i < v.len() - 1 {
                assert(v[i] < v[v.len() - 1]);
            }
        }
    } else {
        let front = v.drop_last();
        assert(!front.contains(x)) by {
            if front.contains(x) {
                assert(v[front.index_of(x)] == x);
            }
        }
        inserting_keeps_order(front, x);
        let inner = inserted(front, x);
        assert(v[v.len() - 1] != x);
        assert forall|y: NodeId| #[trigger] w.contains(y) <==> v.contains(y) || y == x by {
            if w.contains(y) {
                let i = w.index_of(y);
                if i < inner.len() {
                    assert(inner[i] == y);
                    assert(inner.contains(y));
                    if front.contains(y) {
                        assert(v[front.index_of(y)] == y);
                    }
                } else {
                    assert(v[v.len() - 1] == y);
                }
            }
            if v.contains(y) {
                let i = v.index_of(y);
                if i < front.len() {
                    assert(front[i] == y);
                    assert(inner.contains(y));
                    assert(w[inner.index_of(y)] == y);
                } else {
                    assert(w[inner.len() as int] == y);
                }
            }
            if y == x {
                assert(inner.contains(x));
                assert(w[inner.index_of(x)] == x);
            }
        }
        assert forall|i: int, j: int| 0 <= i < j < w.len() implies #[trigger] w[i]
            < #[trigger] w[j] by {
            if j == inner.len() {
                assert(inner.contains(inner[i]));
                if front.contains(inner[i]) {
                    let k = front.index_of(inner[i]);
                    assert(v[k] < v[v.len() - 1]);
                }
            }
        }
    }
}

/// Finitely many ids can be put in order.
pub proof fn finite_sets_have_an_order(s: Set<NodeId>)
    requires
        s.finite(),
    ensures
        strictly_ascending(in_order(s)),
        in_order(s).to_set() == s,
    decreases s.len(),
{
    if s.len() == 0 {
        let none = Seq::<NodeId>::empty();
        assert(s =~= Set::empty());
        assert(none.to_set() =~= s);
        assert(strictly_ascending(none));
    } else {
        let x = s.choose();
        let rest = s.remove(x);
        finite_sets_have_an_order(rest);
        let v = in_order(rest);
        assert(!v.contains(x)) by {
            if v.contains(x) {
                assert(v.to_set().contains(x));
            }
        }
        inserting_keeps_order(v, x);
        let w = inserted(v, x);
        assert forall|y: NodeId| w.to_set().contains(y) == s.contains(y) by {
            assert(w.contains(y) <==> v.contains(y) || y == x);
            assert(v.to_set().contains(y) == rest.contains(y));
        }
        assert(w.to_set() =~= s);
        assert(strictly_ascending(w));
    }
}

/// Finitely many scopes can be put in order.
pub proof fn finite_scopes_have_an_order(s: Set<ScopeId>)
    requires
        s.finite(),
    ensures
        scopes_ascending(scopes_in_order(s)),
        scopes_in_order(s).to_set() == s,
{
    let widen = |x: ScopeId| x as NodeId;
    let narrow = |x: NodeId| x as ScopeId;
    let wide = s.map(widen);
    s.lemma_map_finite(widen);
    finite_sets_have_an_order(wide);
    let w = in_order(wide);
    let v = w.map_values(narrow);
    assert forall|i: int| 0 <= i < w.len() implies w[i] <= u32::MAX && s.contains(
        #[trigger] v[i],
    ) by {
        assert(w.to_set().contains(w[i]));
        let x = choose|x: ScopeId| s.contains(x) && w[i] == widen(x);
        assert(v[i] == x);
    }
    assert(scopes_ascending(v)) by {
        assert forall|i: int, j: int| 0 <= i < j < v.len() implies #[trigger] v[i]
            < #[trigger] v[j] by {
            assert(w[i] < w[j]);
            assert(s.contains(v[i]) && s.contains(v[j]));
        }
    }
    assert forall|x: ScopeId| v.to_set().contains(x) == s.contains(x) by {
        if s.contains(x) {
            assert(wide.contains(widen(x)));
            assert(w.to_set().contains(widen(x)));
            let i = w.index_of(widen(x));
            assert(v[i] == x);
        }
    }
    assert(v.to_set() =~= s);
}

} // verus!
