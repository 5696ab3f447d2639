//! Core identifier types and the edge event model.

use smallvec::SmallVec;
use vstd::prelude::*;

verus! {

/// Identifier of a graph node ("graph id" in routing terms, e.g. Graph 500).
pub type NodeId = u64;

/// Identifier of a tenant scope. `GLOBAL_SCOPE` (0) is visible to every tenant.
pub type ScopeId = u32;

/// The global scope: edges visible here participate in every scope's view.
pub const GLOBAL_SCOPE: ScopeId = 0;

/// A short list of scopes; most lists name one or two tenants, so the first
/// four are held inline.
///
/// Holds a `SmallVec`, which the verifier cannot be told of directly.
#[verifier::external_body]
#[derive(Debug, PartialEq, Eq)]
pub struct ScopeList {
    list: SmallVec<[ScopeId; 4]>,
}

/// The scopes a list holds, in order.
pub uninterp spec fn scope_entries(l: ScopeList) -> Seq<ScopeId>;

/// `SmallVec::from_vec`: a list of the same scopes in the same order.
#[verifier::external_body]
fn list_from_vec(v: Vec<ScopeId>) -> (l: ScopeList)
    ensures
        scope_entries(l) == v@,
{
    ScopeList { list: SmallVec::from_vec(v) }
}

/// `SmallVec` read as a slice and copied with `to_vec`: the scopes of the list
/// in order.
#[verifier::external_body]
fn list_to_vec(l: &ScopeList) -> (v: Vec<ScopeId>)
    ensures
        v@ == scope_entries(*l),
{
    l.list.to_vec()
}

impl View for ScopeList {
    type V = Seq<ScopeId>;

    open spec fn view(&self) -> Seq<ScopeId> {
        scope_entries(*self)
    }
}

impl ScopeList {
    /// A list of the scopes of `v`, in order.
    pub fn from_vec(v: Vec<ScopeId>) -> (l: ScopeList)
        ensures
            l@ == v@,
    {
        list_from_vec(v)
    }

    /// The scopes of the list, in order.
    pub fn to_vec(&self) -> (v: Vec<ScopeId>)
        ensures
            v@ == self@,
    {
        list_to_vec(self)
    }
}

impl Clone for ScopeList {
    fn clone(&self) -> (l: ScopeList)
        ensures
            l@ == self@,
    {
        ScopeList::from_vec(self.to_vec())
    }
}

/// Which tenants may see an edge.
#[derive(Debug, Clone, PartialEq, Eq)]
pub enum Visibility {
    /// Visible to all scopes; merges components in every tenant's view.
    Global,
    /// Visible only to the listed scopes (typically one, occasionally a few).
    Scoped(ScopeList),
}

/// `s` without the repeats: each id where it first occurs.
pub open spec fn first_occurrences(s: Seq<ScopeId>) -> Seq<ScopeId>
    decreases s.len(),
{
    if s.len() == 0 {
        Seq::empty()
    } else {
        let before = first_occurrences(s.drop_last());
        if before.contains(s.last()) {
            before
        } else {
            before.push(s.last())
        }
    }
}

/// Dropping the repeats keeps exactly the ids there were, each once.
pub proof fn first_occurrences_keep_every_id(s: Seq<ScopeId>)
    ensures
        first_occurrences(s).no_duplicates(),
        forall|x: ScopeId| first_occurrences(s).contains(x) <==> s.contains(x),
    decreases s.len(),
{
    if s.len() > 0 {
        let before = first_occurrences(s.drop_last());
        first_occurrences_keep_every_id(s.drop_last());
        let all = first_occurrences(s);
        assert forall|x: ScopeId| all.contains(x) <==> s.contains(x) by {
            if s.contains(x) {
                let i = s.index_of(x);
                if i < s.len() - 1 {
                    assert(s.drop_last()[i] == x);
                    assert(s.drop_last().contains(x));
                    assert(before.contains(x));
                    let j = before.index_of(x);
                    assert(all[j] == x);
                } else if !before.contains(x) {
                    assert(all[before.len() as int] == x);
                }
            }
            if all.contains(x) {
                let j = all.index_of(x);
                if j < before.len() {
                    assert(before[j] == x);
                    assert(s.drop_last().contains(x));
                    let i = s.drop_last().index_of(x);
                    assert(s[i] == x);
                } else {
                    assert(s[s.len() - 1] == x);
                }
            }
        }
    }
}

impl Visibility {
    /// The scopes that see an edge of this visibility: `None` where all do,
    /// which is what an empty list and a list naming the global scope mean.
    /// Otherwise the listed scopes, each once.
    pub open spec fn audience(self) -> Option<Seq<ScopeId>> {
        match self {
            Visibility::Global => None,
            Visibility::Scoped(s) => if s@.len() == 0 || s@.contains(GLOBAL_SCOPE) {
                None
            } else {
                Some(first_occurrences(s@))
            },
        }
    }

    /// The scopes an edge of this visibility is applied to; `None` for all.
    pub fn scopes(&self) -> (r: Option<Vec<ScopeId>>)
        ensures
            match r {
                None => self.audience() is None,
                Some(v) => self.audience() == Some(v@),
            },
    {
        match self {
            Visibility::Global => None,
            Visibility::Scoped(s) => {
                let listed: Vec<ScopeId> = s.to_vec();
                if listed.len() == 0 {
                    return None;
                }
                let mut kept: Vec<ScopeId> = Vec::new();
                let mut i: usize = 0;
                while i < listed.len()
                    invariant
                        i <= listed.len(),
                        listed@ == s@,
                        kept@ == first_occurrences(listed@.take(i as int)),
                        !listed@.take(i as int).contains(GLOBAL_SCOPE),
                        *self == Visibility::Scoped(*s),
                        listed.len() > 0,
                    decreases listed.len() - i,
                {
                    let scope: ScopeId = listed[i];
                    proof {
                        assert(listed@.take(i + 1).drop_last() =~= listed@.take(i as int));
                        assert(listed@.take(i + 1)[i as int] == scope);
                    }
                    if scope == GLOBAL_SCOPE {
                        assert(s@[i as int] == GLOBAL_SCOPE);
                        return None;
                    }
                    let known: bool = contains_scope(&kept, scope);
                    if !known {
                        kept.push(scope);
                    }
                    assert(!listed@.take(i + 1).contains(GLOBAL_SCOPE)) by {
                        if listed@.take(i + 1).contains(GLOBAL_SCOPE) {
                            let j = listed@.take(i + 1).index_of(GLOBAL_SCOPE);
                            assert(listed@.take(i as int)[j] == GLOBAL_SCOPE);
                        }
                    }
                    i += 1;
                }
                assert(listed@.take(i as int) =~= listed@);
                Some(kept)
            },
        }
    }

    /// The canonical form: an empty scope list, and one that names the global
    /// scope, is global visibility; a repeated id is listed once.
    pub fn normalize(self) -> (r: Visibility)
        ensures
            match self.audience() {
                None => r == Visibility::Global,
                Some(s) => r matches Visibility::Scoped(l) && l@ == s,
            },
    {
        match self.scopes() {
            None => Visibility::Global,
            Some(s) => Visibility::Scoped(ScopeList::from_vec(s)),
        }
    }
}

/// Whether `scope` is among `scopes`.
pub fn contains_scope(scopes: &Vec<ScopeId>, scope: ScopeId) -> (r: bool)
    ensures
        r == scopes@.contains(scope),
{
    let mut i: usize = 0;
    while i < scopes.len()
        invariant
            i <= scopes.len(),
            forall|j: int| 0 <= j < i ==> scopes@[j] != scope,
        decreases scopes.len() - i,
    {
        if scopes[i] == scope {
            return true;
        }
        i += 1;
    }
    false
}

/// A single edge event from the firehose.
#[derive(Debug, Clone)]
pub struct EdgeEvent {
    pub src: NodeId,
    pub dst: NodeId,
    pub visibility: Visibility,
    /// Event time in epoch milliseconds.
    pub event_time_ms: i64,
    /// Raw edge properties as a JSON document (kept opaque end to end).
    pub props: Option<String>,
}

/// **Who sees an edge**: everyone, where it is global, lists nobody or lists
/// scope 0; otherwise exactly the scopes it lists, each once, in the order in
/// which they are first listed.
pub proof fn an_edge_is_seen_by_its_audience(v: Visibility)
    ensures
        v.audience() is None <==> match v {
            Visibility::Global => true,
            Visibility::Scoped(l) => l@.len() == 0 || exists|i: int|
                0 <= i < l@.len() && #[trigger] l@[i] == 0,
        },
        match (v, v.audience()) {
            (Visibility::Scoped(l), Some(seen)) => {
                &&& seen.no_duplicates()
                &&& forall|s: ScopeId| #[trigger] seen.contains(s) <==> l@.contains(s)
                &&& forall|i: int, j: int|
                    0 <= i < j < seen.len() ==> listed_first(
                        l@,
                        #[trigger] seen[i],
                        #[trigger] seen[j],
                    )
            },
            (_, seen) => seen is None,
        },
{
    if let Visibility::Scoped(l) = v {
        first_occurrences_keep_every_id(l@);
        first_occurrences_keep_the_order(l@);
        if l@.contains(GLOBAL_SCOPE) {
            let i = l@.index_of(GLOBAL_SCOPE);
            assert(l@[i] == 0);
        }
    }
}

/// `a` is listed before `b` is.
pub open spec fn listed_first(s: Seq<ScopeId>, a: ScopeId, b: ScopeId) -> bool {
    exists|k: int| 0 <= k < s.len() && #[trigger] s[k] == a && !s.take(k + 1).contains(b)
}

proof fn first_occurrences_keep_the_order(s: Seq<ScopeId>)
    ensures
        forall|i: int, j: int|
            0 <= i < j < first_occurrences(s).len() ==> listed_first(
                s,
                #[trigger] first_occurrences(s)[i],
                #[trigger] first_occurrences(s)[j],
            ),
    decreases s.len(),
{
    if s.len() > 0 {
        let front = s.drop_last();
        let before = first_occurrences(front);
        let all = first_occurrences(s);
        first_occurrences_keep_the_order(front);
        first_occurrences_keep_every_id(front);
        assert forall|i: int, j: int| 0 <= i < j < all.len() implies listed_first(
            s,
            #[trigger] all[i],
            #[trigger] all[j],
        ) by {
            assert(all[i] == before[i]);
            if j < before.len() {
                assert(listed_first(front, before[i], before[j]));
                let k = choose|k: int|
                    0 <= k < front.len() && #[trigger] front[k] == before[i] && !front.take(
                        k + 1,
                    ).contains(before[j]);
                assert(s.take(k + 1) =~= front.take(k + 1));
                assert(s[k] == all[i]);
            } else {
                assert(before.contains(before[i]));
                assert(front.contains(before[i]));
                let k = front.index_of(before[i]);
                assert(s[k] == all[i]);
                assert(!before.contains(s.last()));
                assert(!front.contains(all[j]));
                if s.take(k + 1).contains(all[j]) {
                    let m = s.take(k + 1).index_of(all[j]);
                    assert(front[m] == all[j]);
                }
            }
        }
    }
}

/// **An edge is applied to those that see it**, each once, and its canonical form is
/// seen by the same.
pub proof fn an_edge_is_applied_to_those_that_see_it(
    v: Visibility,
    r: Option<Vec<ScopeId>>,
    n: Visibility,
    scope: ScopeId,
)
    requires
        call_ensures(Visibility::scopes, (&v,), r),
        call_ensures(Visibility::normalize, (v,), n),
    ensures
        r is None <==> match v {
            Visibility::Global => true,
            Visibility::Scoped(l) => l@.len() == 0 || l@.contains(0),
        },
        r matches Some(s) ==> s@.no_duplicates(),
        match (v, r) {
            (Visibility::Scoped(l), Some(s)) => s@.contains(scope) <==> l@.contains(scope),
            _ => r is None,
        },
        n is Global <==> r is None,
        match (n, r) {
            (Visibility::Scoped(l), Some(s)) => l@ == s@,
            _ => true,
        },
{
    an_edge_is_seen_by_its_audience(v);
    if let Visibility::Scoped(l) = v {
        if l@.contains(0) {
            let i = l@.index_of(0);
            assert(l@[i] == 0);
        }
    }
}

} // verus!
