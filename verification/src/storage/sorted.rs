//! Sorting of the pairs that tables and registries are made of.

use vstd::prelude::*;
use vstd::relations::{sorted_by, total_ordering};
use vstd::seq_lib::lemma_sorted_unique;

use super::blocks::{entries_ascend, entry_le};
use super::registry::{registry_ascends, registry_le};
use crate::graph::types::{NodeId, ScopeId};

verus! {

/// `<[(u64, u64)]>::sort_unstable`: the same pairs, ascending by the first
/// component and then by the second.
#[verifier::external_body]
fn sort_pair_list(v: &mut Vec<(u64, u64)>)
    ensures
        final(v)@.to_multiset() == old(v)@.to_multiset(),
        forall|i: int, j: int|
            0 <= i < j < final(v)@.len() ==> entry_le(final(v)@[i], final(v)@[j]),
{
    v.sort_unstable();
}

/// `<[(u64, u32)]>::sort_unstable`: the same entries, ascending by the first
/// component and then by the second.
#[verifier::external_body]
fn sort_entry_list(v: &mut Vec<(NodeId, ScopeId)>)
    ensures
        final(v)@.to_multiset() == old(v)@.to_multiset(),
        forall|i: int, j: int|
            0 <= i < j < final(v)@.len() ==> registry_le(final(v)@[i], final(v)@[j]),
{
    v.sort_unstable();
}

/// The pairs of `s` in ascending order.
pub open spec fn pairs_sorted(s: Seq<(u64, u64)>) -> Seq<(u64, u64)> {
    s.sort_by(|a: (u64, u64), b: (u64, u64)| entry_le(a, b))
}

/// The entries of `s` in ascending order.
pub open spec fn entries_sorted(s: Seq<(NodeId, ScopeId)>) -> Seq<(NodeId, ScopeId)> {
    s.sort_by(|a: (NodeId, ScopeId), b: (NodeId, ScopeId)| registry_le(a, b))
}

/// `s` without the entries that repeat the one before them.
pub open spec fn distinct(s: Seq<(NodeId, ScopeId)>) -> Seq<(NodeId, ScopeId)>
    decreases s.len(),
{
    if s.len() == 0 {
        Seq::empty()
    } else {
        let before = distinct(s.drop_last());
        if before.len() > 0 && before.last() == s.last() {
            before
        } else {
            before.push(s.last())
        }
    }
}

/// The registry that lists the entries of `raw`: each once, ascending.
pub open spec fn registry_listing(raw: Seq<(NodeId, ScopeId)>) -> Seq<(NodeId, ScopeId)> {
    distinct(entries_sorted(raw))
}

/// Each entry comes after the ones before it.
pub open spec fn registry_strict(s: Seq<(NodeId, ScopeId)>) -> bool {
    forall|i: int, j: int|
        0 <= i < j < s.len() ==> registry_le(#[trigger] s[i], #[trigger] s[j]) && s[i] != s[j]
}

proof fn pair_order()
    ensures
        total_ordering(|a: (u64, u64), b: (u64, u64)| entry_le(a, b)),
{
}

proof fn entry_order()
    ensures
        total_ordering(|a: (NodeId, ScopeId), b: (NodeId, ScopeId)| registry_le(a, b)),
{
}

/// A sorted rearrangement of `s` is `pairs_sorted(s)`.
pub proof fn pairs_sorted_is(s: Seq<(u64, u64)>, t: Seq<(u64, u64)>)
    requires
        entries_ascend(t),
        t.to_multiset() == s.to_multiset(),
    ensures
        pairs_sorted(s) == t,
{
    let leq = |a: (u64, u64), b: (u64, u64)| entry_le(a, b);
    pair_order();
    s.lemma_sort_by_ensures(leq);
    assert forall|i: int, j: int| 0 <= i < j < t.len() implies #[trigger] leq(t[i], t[j]) by {
        assert(entry_le(t[i], t[j]));
    }
    assert(sorted_by(t, leq));
    lemma_sorted_unique(pairs_sorted(s), t, leq);
}

pub proof fn pairs_sorted_sorts(s: Seq<(u64, u64)>)
    ensures
        entries_ascend(pairs_sorted(s)),
        pairs_sorted(s).to_multiset() == s.to_multiset(),
        pairs_sorted(s).len() == s.len(),
        forall|x: (u64, u64)| pairs_sorted(s).contains(x) <==> s.contains(x),
{
    let leq = |a: (u64, u64), b: (u64, u64)| entry_le(a, b);
    pair_order();
    s.lemma_sort_by_ensures(leq);
    let t = pairs_sorted(s);
    assert forall|i: int, j: int| 0 <= i < j < t.len() implies entry_le(
        #[trigger] t[i],
        #[trigger] t[j],
    ) by {
        assert(leq(t[i], t[j]));
    }
    s.to_multiset_ensures();
    t.to_multiset_ensures();
    assert forall|x: (u64, u64)| t.contains(x) <==> s.contains(x) by {
        assert(t.contains(x) <==> t.to_multiset().count(x) > 0);
        assert(s.contains(x) <==> s.to_multiset().count(x) > 0);
    }
}

pub proof fn entries_sorted_is(s: Seq<(NodeId, ScopeId)>, t: Seq<(NodeId, ScopeId)>)
    requires
        registry_ascends(t),
        t.to_multiset() == s.to_multiset(),
    ensures
        entries_sorted(s) == t,
{
    let leq = |a: (NodeId, ScopeId), b: (NodeId, ScopeId)| registry_le(a, b);
    entry_order();
    s.lemma_sort_by_ensures(leq);
    assert forall|i: int, j: int| 0 <= i < j < t.len() implies #[trigger] leq(t[i], t[j]) by {
        assert(registry_le(t[i], t[j]));
    }
    assert(sorted_by(t, leq));
    lemma_sorted_unique(entries_sorted(s), t, leq);
}

pub proof fn entries_sorted_sorts(s: Seq<(NodeId, ScopeId)>)
    ensures
        registry_ascends(entries_sorted(s)),
        entries_sorted(s).len() == s.len(),
        forall|x: (NodeId, ScopeId)| entries_sorted(s).contains(x) <==> s.contains(x),
{
    let leq = |a: (NodeId, ScopeId), b: (NodeId, ScopeId)| registry_le(a, b);
    entry_order();
    s.lemma_sort_by_ensures(leq);
    let t = entries_sorted(s);
    assert forall|i: int, j: int| 0 <= i < j < t.len() implies registry_le(
        #[trigger] t[i],
        #[trigger] t[j],
    ) by {
        assert(leq(t[i], t[j]));
    }
    s.to_multiset_ensures();
    t.to_multiset_ensures();
    assert forall|x: (NodeId, ScopeId)| t.contains(x) <==> s.contains(x) by {
        assert(t.contains(x) <==> t.to_multiset().count(x) > 0);
        assert(s.contains(x) <==> s.to_multiset().count(x) > 0);
    }
}

pub proof fn distinct_of_ascending(s: Seq<(NodeId, ScopeId)>)
    requires
        registry_ascends(s),
    ensures
        registry_strict(distinct(s)),
        s.len() > 0 ==> distinct(s).len() > 0 && distinct(s).last() == s.last(),
        forall|x: (NodeId, ScopeId)| distinct(s).contains(x) <==> s.contains(x),
        distinct(s).len() <= s.len(),
    decreases s.len(),
{
    if s.len() > 0 {
        let front = s.drop_last();
        assert forall|i: int, j: int| 0 <= i < j < front.len() implies registry_le(
            #[trigger] front[i],
            #[trigger] front[j],
        ) by {
            assert(registry_le(s[i], s[j]));
        }
        distinct_of_ascending(front);
        let before = distinct(front);
        let all = distinct(s);
        if front.len() > 0 {
            assert(registry_le(s[front.len() - 1], s[front.len() as int]));
        }
        assert forall|i: int, j: int| 0 <= i < j < all.len() implies registry_le(
            #[trigger] all[i],
            #[trigger] all[j],
        ) && all[i] != all[j] by {
            if j == before.len() {
                let last = before[before.len() - 1];
                if i < before.len() - 1 {
                    assert(registry_le(before[i], last) && before[i] != last);
                }
            }
        }
        assert forall|x: (NodeId, ScopeId)| all.contains(x) <==> s.contains(x) by {
            if s.contains(x) {
                let i = s.index_of(x);
                if i < front.len() {
                    assert(front[i] == x);
                    assert(front.contains(x));
                    assert(before.contains(x));
                    let j = before.index_of(x);
                    assert(all[j] == x);
                } else {
                    assert(all[all.len() - 1] == x);
                }
            }
            if all.contains(x) {
                let j = all.index_of(x);
                if j < before.len() {
                    assert(before[j] == x);
                    assert(front.contains(x));
                    let i = front.index_of(x);
                    assert(s[i] == x);
                } else {
                    assert(s[s.len() - 1] == x);
                }
            }
        }
    }
}

/// The listing has each entry of `raw` once, ascending, and nothing else.
pub proof fn registry_listing_lists(raw: Seq<(NodeId, ScopeId)>)
    ensures
        registry_strict(registry_listing(raw)),
        registry_ascends(registry_listing(raw)),
        forall|x: (NodeId, ScopeId)| registry_listing(raw).contains(x) <==> raw.contains(x),
        registry_listing(raw).len() <= raw.len(),
{
    entries_sorted_sorts(raw);
    distinct_of_ascending(entries_sorted(raw));
    let t = registry_listing(raw);
    assert forall|i: int, j: int| 0 <= i < j < t.len() implies registry_le(
        #[trigger] t[i],
        #[trigger] t[j],
    ) by {
        assert(registry_le(t[i], t[j]) && t[i] != t[j]);
    }
}

/// Two strictly ascending lists of the same entries are the same list.
pub proof fn strict_registries_agree(a: Seq<(NodeId, ScopeId)>, b: Seq<(NodeId, ScopeId)>)
    requires
        registry_strict(a),
        registry_strict(b),
        forall|x: (NodeId, ScopeId)| a.contains(x) <==> b.contains(x),
    ensures
        a == b,
    decreases a.len(),
{
    if a.len() == 0 {
        if b.len() > 0 {
            assert(b.contains(b[0]));
            assert(a.contains(b[0]));
        }
        assert(a =~= b);
    } else {
        assert(a.contains(a[a.len() - 1]));
        assert(b.contains(a.last()));
        let i = b.index_of(a.last());
        let n = b.len() - 1;
        assert(b.contains(b[n]));
        assert(a.contains(b.last()));
        let j = a.index_of(b.last());
        // Each last entry is the largest of its list.
        if i < n {
            assert(registry_le(b[i], b[n]) && b[i] != b[n]);
            assert(j < a.len() - 1);
            assert(registry_le(a[j], a[a.len() - 1]) && a[j] != a[a.len() - 1]);
        }
        assert(a.last() == b.last());
        let fa = a.drop_last();
        let fb = b.drop_last();
        assert forall|x: (NodeId, ScopeId)| fa.contains(x) <==> fb.contains(x) by {
            if fa.contains(x) {
                let k = fa.index_of(x);
                assert(a[k] == x && a[k] != a[a.len() - 1]);
                assert(a.contains(x));
                let m = b.index_of(x);
                assert(m < n);
                assert(fb[m] == x);
            }
            if fb.contains(x) {
                let k = fb.index_of(x);
                assert(b[k] == x && b[k] != b[n]);
                assert(b.contains(x));
                let m = a.index_of(x);
                assert(m < a.len() - 1);
                assert(fa[m] == x);
            }
        }
        strict_front(a);
        strict_front(b);
        strict_registries_agree(fa, fb);
        assert(a =~= fa.push(a.last()));
        assert(b =~= fb.push(b.last()));
    }
}

proof fn strict_front(a: Seq<(NodeId, ScopeId)>)
    requires
        registry_strict(a),
        a.len() > 0,
    ensures
        registry_strict(a.drop_last()),
{
    let f = a.drop_last();
    assert forall|i: int, j: int| 0 <= i < j < f.len() implies registry_le(
        #[trigger] f[i],
        #[trigger] f[j],
    ) && f[i] != f[j] by {
        assert(registry_le(a[i], a[j]) && a[i] != a[j]);
    }
}

/// Sorts pairs in ascending order.
pub fn sort_pairs(v: &mut Vec<(u64, u64)>)
    ensures
        final(v)@ == pairs_sorted(old(v)@),
{
    let ghost before = v@;
    sort_pair_list(v);
    proof {
        assert(entries_ascend(v@));
        pairs_sorted_is(before, v@);
    }
}

/// The entries of `raw`, each once, ascending.
pub fn list_registry(raw: Vec<(NodeId, ScopeId)>) -> (out: Vec<(NodeId, ScopeId)>)
    ensures
        out@ == registry_listing(raw@),
{
    let mut v = raw;
    sort_entry_list(&mut v);
    proof {
        assert(registry_ascends(v@));
        entries_sorted_is(raw@, v@);
    }
    let mut out: Vec<(NodeId, ScopeId)> = Vec::new();
    let mut i: usize = 0;
    while i < v.len()
        invariant
            i <= v.len(),
            out@ == distinct(v@.take(i as int)),
        decreases v.len() - i,
    {
        let e: (NodeId, ScopeId) = v[i];
        assert(v@.take(i + 1).drop_last() =~= v@.take(i as int));
        let repeat: bool = if out.len() > 0 {
            let last: (NodeId, ScopeId) = out[out.len() - 1];
            last.0 == e.0 && last.1 == e.1
        } else {
            false
        };
        if !repeat {
            out.push(e);
        }
        i += 1;
    }
    assert(v@.take(i as int) =~= v@);
    out
}

} // verus!
