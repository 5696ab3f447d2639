//! Reclaim what no retained snapshot can reach.
//!
//! Liveness is a reachability question: the run set names exactly what a
//! snapshot needs. But reachability is **not** per-snapshot: a snapshot that
//! describes itself as a chain hydrates by walking every sequence from its
//! base forward, so retaining it requires retaining that whole chain. The
//! retained set is a **closure**, not a suffix.
//!
//! An object younger than the grace period is never touched, whatever the
//! catalog says about it: a tick writes its objects first and commits the
//! metadata naming them afterwards, and in that window they are reachable from
//! nothing.

use std::collections::BTreeSet;
use vstd::prelude::*;

use super::catalog::{chain_start, SnapshotMeta, FORMAT_RUN_SETS};
use crate::text::same_text;

verus! {

broadcast use vstd::std_specs::btree::group_btree_axioms;

/// How much history to keep.
#[derive(Debug, Clone, Copy)]
pub struct RetentionPolicy {
    /// Newest snapshots to keep whatever their age. Never less than 1: the
    /// newest is the one the cluster is serving.
    pub keep_snapshots: usize,
    /// Also keep any snapshot committed within this many milliseconds.
    pub keep_for_ms: i64,
    /// Never delete an object younger than this many milliseconds, reachable
    /// or not. Protects commits that are in flight right now.
    pub grace_ms: i64,
}

impl Default for RetentionPolicy {
    /// Ten snapshots, a day, and an hour of grace.
    fn default() -> (p: RetentionPolicy)
        ensures
            p.keep_snapshots == 10,
            p.keep_for_ms == 24 * 3600 * 1000,
            p.grace_ms == 3600 * 1000,
    {
        RetentionPolicy { keep_snapshots: 10, keep_for_ms: 86_400_000, grace_ms: 3_600_000 }
    }
}

/// What a sweep reclaimed, and what it decided to keep.
#[derive(Debug, Clone, Copy, PartialEq, Eq, Structural)]
pub struct Reclaimed {
    pub snapshots_expired: u64,
    pub objects_deleted: u64,
    pub bytes_deleted: u64,
    pub snapshots_kept: u64,
    pub objects_live: u64,
    /// Unreachable objects left alone because they were inside the grace
    /// period.
    pub objects_too_young: u64,
}

impl Default for Reclaimed {
    fn default() -> (r: Reclaimed)
        ensures
            r == Reclaimed::nothing(),
    {
        Reclaimed {
            snapshots_expired: 0,
            objects_deleted: 0,
            bytes_deleted: 0,
            snapshots_kept: 0,
            objects_live: 0,
            objects_too_young: 0,
        }
    }
}

impl Reclaimed {
    pub open spec fn nothing() -> Reclaimed {
        Reclaimed {
            snapshots_expired: 0,
            objects_deleted: 0,
            bytes_deleted: 0,
            snapshots_kept: 0,
            objects_live: 0,
            objects_too_young: 0,
        }
    }
}

// --- what is retained ------------------------------------------------------------------------------

/// At least the newest.
pub open spec fn kept_count(policy: RetentionPolicy) -> int {
    if policy.keep_snapshots < 1 {
        1
    } else {
        policy.keep_snapshots as int
    }
}

/// Snapshot `i` was committed within the window.
pub open spec fn recent(meta: SnapshotMeta, policy: RetentionPolicy, now_ms: i64) -> bool {
    meta.committed_at_ms >= now_ms - policy.keep_for_ms
}

/// Snapshot `i` is kept for its own sake: one of the newest, or recent.
pub open spec fn seeded(
    all: Seq<u64>,
    metas: Seq<SnapshotMeta>,
    policy: RetentionPolicy,
    now_ms: i64,
    i: int,
) -> bool {
    &&& 0 <= i < all.len()
    &&& i >= all.len() - kept_count(policy) || recent(metas[i], policy, now_ms)
}

/// The sequences kept for their own sake.
pub open spec fn seeds(
    all: Seq<u64>,
    metas: Seq<SnapshotMeta>,
    policy: RetentionPolicy,
    now_ms: i64,
) -> Set<u64> {
    Set::new(|s: u64| exists|i: int| #[trigger] seeded(all, metas, policy, now_ms, i) && all[i] == s)
}

/// Hydrating `meta` reads the snapshot at `s`.
pub open spec fn walks(meta: SnapshotMeta, s: u64) -> bool {
    &&& meta.runs@.len() == 0
    &&& meta.format_version < FORMAT_RUN_SETS
    &&& chain_start(meta.base_sequence, meta.sequence) <= s <= meta.sequence
}

/// Snapshot `i` is the one that its sequence stands for: of several, the last.
pub open spec fn stands(metas: Seq<SnapshotMeta>, i: int) -> bool {
    &&& 0 <= i < metas.len()
    &&& forall|j: int| i < j < metas.len() ==> (#[trigger] metas[j]).sequence != metas[i].sequence
}

/// Whatever a snapshot in `set` walks is in `set`.
pub open spec fn closed_under_chains(metas: Seq<SnapshotMeta>, set: Set<u64>) -> bool {
    forall|i: int, s: u64|
        stands(metas, i) && set.contains(metas[i].sequence) && #[trigger] walks(metas[i], s)
            ==> set.contains(s)
}

/// `set` is the least set with `start` that is closed under chains.
pub open spec fn is_closure(metas: Seq<SnapshotMeta>, start: Set<u64>, set: Set<u64>) -> bool {
    &&& start.subset_of(set)
    &&& closed_under_chains(metas, set)
    &&& forall|other: Set<u64>| #[trigger]
        closed_under_chains(metas, other) && start.subset_of(other) ==> set.subset_of(other)
}

/// `meta` names the object at `path`.
pub open spec fn names(meta: SnapshotMeta, path: Seq<char>) -> bool {
    ||| meta.puffin_path@ == path
    ||| exists|i: int| 0 <= i < meta.data_files@.len() && (#[trigger] meta.data_files@[i]).path@ == path
    ||| exists|i: int| 0 <= i < meta.runs@.len() && (#[trigger] meta.runs@[i]).path@ == path
}

/// A retained snapshot names the object at `path`.
pub open spec fn reachable(metas: Seq<SnapshotMeta>, retained: Set<u64>, path: Seq<char>) -> bool {
    exists|i: int| #[trigger] names_retained(metas, retained, i, path)
}

pub open spec fn names_retained(
    metas: Seq<SnapshotMeta>,
    retained: Set<u64>,
    i: int,
    path: Seq<char>,
) -> bool {
    0 <= i < metas.len() && retained.contains(metas[i].sequence) && names(metas[i], path)
}

/// `list` holds the text `t`.
pub open spec fn holds_text(list: Seq<String>, t: Seq<char>) -> bool {
    exists|i: int| 0 <= i < list.len() && (#[trigger] list[i])@ == t
}

/// No text occurs twice.
pub open spec fn distinct_texts(list: Seq<String>) -> bool {
    forall|i: int, j: int| 0 <= i < j < list.len() ==> (#[trigger] list[i])@ != (#[trigger] list[j])@
}

/// What a sweep keeps.
pub struct RetentionPlan {
    /// Sequences of the snapshots that stay.
    pub retained: BTreeSet<u64>,
    /// Paths of the objects they name, each once.
    pub live: Vec<String>,
}

fn contains_text(list: &Vec<String>, t: &str) -> (r: bool)
    ensures
        r == holds_text(list@, t@),
{
    let mut i: usize = 0;
    while i < list.len()
        invariant
            i <= list.len(),
            forall|j: int| 0 <= j < i ==> (#[trigger] list@[j])@ != t@,
        decreases list.len() - i,
    {
        if same_text(list[i].as_str(), t) {
            assert(list@[i as int]@ == t@);
            return true;
        }
        i += 1;
    }
    false
}

fn add_text(list: &mut Vec<String>, t: &String)
    requires
        distinct_texts(old(list)@),
    ensures
        distinct_texts(final(list)@),
        forall|x: Seq<char>| #[trigger] holds_text(final(list)@, x) <==> holds_text(old(list)@, x) || x == t@,
{
    let ghost before = list@;
    if contains_text(list, t.as_str()) {
        return;
    }
    list.push(t.clone());
    proof {
        let now = list@;
        assert forall|i: int, j: int|
            0 <= i < j < now.len()
        implies (#[trigger] now[i])@ != (#[trigger] now[j])@ by {
            if j == before.len() {
                assert(before[i]@ != t@);
            } else {
                assert(before[i]@ != before[j]@);
            }
        }
        assert forall|x: Seq<char>| #[trigger] holds_text(now, x) <==> holds_text(before, x) || x == t@ by {
            if holds_text(before, x) {
                let i = choose|i: int| 0 <= i < before.len() && (#[trigger] before[i])@ == x;
                assert(now[i]@ == x);
            }
            if x == t@ {
                assert(now[before.len() as int]@ == x);
            }
            if holds_text(now, x) {
                let i = choose|i: int| 0 <= i < now.len() && (#[trigger] now[i])@ == x;
                if i < before.len() {
                    assert(before[i]@ == x);
                }
            }
        }
    }
}

/// The sequences kept for their own sake.
fn seed_sequences(
    all: &Vec<u64>,
    metas: &Vec<SnapshotMeta>,
    policy: &RetentionPolicy,
    now_ms: i64,
) -> (set: BTreeSet<u64>)
    requires
        all@.len() == metas@.len(),
    ensures
        set@ == seeds(all@, metas@, *policy, now_ms),
{
    let keep: usize = if policy.keep_snapshots < 1 {
        1
    } else {
        policy.keep_snapshots
    };
    let mut set: BTreeSet<u64> = BTreeSet::new();
    let mut i: usize = 0;
    while i < all.len()
        invariant
            i <= all.len(),
            all@.len() == metas@.len(),
            keep == kept_count(*policy),
            forall|s: u64| #[trigger] set@.contains(s) <==> exists|j: int|
                j < i && #[trigger] seeded(all@, metas@, *policy, now_ms, j) && all@[j] == s,
        decreases all.len() - i,
    {
        let ghost was = set@;
        let newest: bool = all.len() - i <= keep;
        // Wide enough that no window can overflow.
        let since: i128 = now_ms as i128 - policy.keep_for_ms as i128;
        let young: bool = metas[i].committed_at_ms as i128 >= since;
        assert((newest || young) == seeded(all@, metas@, *policy, now_ms, i as int));
        if newest || young {
            set.insert(all[i]);
        }
        assert forall|s: u64| #[trigger] set@.contains(s) <==> exists|j: int|
            j < i + 1 && #[trigger] seeded(all@, metas@, *policy, now_ms, j) && all@[j] == s by {
            if was.contains(s) {
                let j = choose|j: int| j < i && #[trigger] seeded(all@, metas@, *policy, now_ms, j) && all@[j] == s;
                assert(j < i + 1 && seeded(all@, metas@, *policy, now_ms, j) && all@[j] == s);
            }
            if set@.contains(s) && !was.contains(s) {
                assert(seeded(all@, metas@, *policy, now_ms, i as int) && all@[i as int] == s);
            }
        }
        i += 1;
    }
    proof {
        let want = seeds(all@, metas@, *policy, now_ms);
        assert forall|s: u64| set@.contains(s) == want.contains(s) by {
            if want.contains(s) {
                let j = choose|j: int| #[trigger] seeded(all@, metas@, *policy, now_ms, j) && all@[j] == s;
                assert(j < i && seeded(all@, metas@, *policy, now_ms, j) && all@[j] == s);
            }
        }
        assert(set@ =~= want);
    }
    set
}

/// Adds what one snapshot walks.
fn add_chain(set: &mut BTreeSet<u64>, meta: &SnapshotMeta)
    ensures
        forall|s: u64| #[trigger] final(set)@.contains(s) <==> old(set)@.contains(s) || walks(*meta, s),
{
    let ghost before = set@;
    if meta.runs.len() > 0 || meta.format_version >= FORMAT_RUN_SETS {
        return;
    }
    let start: u64 = meta.chain_base();
    let end: u64 = meta.sequence;
    if start > end {
        return;
    }
    let mut s: u64 = start;
    loop
        invariant_except_break
            start <= s <= end,
            forall|x: u64| #[trigger] set@.contains(x) <==> before.contains(x) || start <= x < s,
        invariant
            start <= end,
        ensures
            forall|x: u64| #[trigger] set@.contains(x) <==> before.contains(x) || start <= x <= end,
        decreases end - s,
    {
        set.insert(s);
        if s == end {
            break ;
        }
        s = s + 1;
    }
}

/// Whether snapshot `i` is the one that its sequence stands for.
fn is_standing(metas: &Vec<SnapshotMeta>, i: usize) -> (r: bool)
    requires
        i < metas@.len(),
    ensures
        r == stands(metas@, i as int),
{
    let n: usize = metas.len();
    let mut j: usize = i + 1;
    while j < n
        invariant
            n == metas@.len(),
            i < j <= metas@.len(),
            forall|k: int| i < k < j ==> (#[trigger] metas@[k]).sequence != metas@[i as int].sequence,
        decreases n - j,
    {
        if metas[j].sequence == metas[i].sequence {
            assert(metas@[j as int].sequence == metas@[i as int].sequence);
            return false;
        }
        j += 1;
    }
    true
}

/// Pulling in one chain snapshot can pull in others.
fn close(metas: &Vec<SnapshotMeta>, start: BTreeSet<u64>) -> (set: BTreeSet<u64>)
    ensures
        is_closure(metas@, start@, set@),
{
    let ghost seed = start@;
    let mut set = start;
    // What another snapshot stands for is not followed.
    let mut done: Vec<bool> = Vec::new();
    let mut left: usize = 0;
    let mut i: usize = 0;
    while i < metas.len()
        invariant
            i <= metas.len(),
            done@.len() == i,
            left <= i,
            left == pending(done@),
            forall|j: int| 0 <= j < i ==> #[trigger] done@[j] == !stands(metas@, j),
        decreases metas.len() - i,
    {
        let follow: bool = is_standing(metas, i);
        let ghost was = done@;
        done.push(!follow);
        assert(done@.drop_last() =~= was);
        if follow {
            left += 1;
        }
        i += 1;
    }
    loop
        invariant_except_break
            left == pending(done@),
        invariant
            done@.len() == metas@.len(),
            seed.subset_of(set@),
            forall|j: int| 0 <= j < metas@.len() && !(#[trigger] done@[j]) ==> stands(metas@, j),
            forall|j: int, s: u64|
                stands(metas@, j) && done@[j] && #[trigger] walks(metas@[j], s) ==> set@.contains(s),
            forall|other: Set<u64>| #[trigger]
                closed_under_chains(metas@, other) && seed.subset_of(other) ==> set@.subset_of(other),
        ensures
            forall|j: int| 0 <= j < metas@.len() && set@.contains(metas@[j].sequence) ==> #[trigger] done@[j],
        decreases left,
    {
        let mut at: usize = 0;
        while at < metas.len() && !(set.contains(&metas[at].sequence) && !done[at])
            invariant
                at <= metas.len(),
                done@.len() == metas@.len(),
                forall|j: int| 0 <= j < at && set@.contains(metas@[j].sequence) ==> #[trigger] done@[j],
            decreases metas.len() - at,
        {
            at += 1;
        }
        if at == metas.len() {
            break ;
        }
        let ghost was = set@;
        let ghost was_done = done@;
        assert(stands(metas@, at as int));
        add_chain(&mut set, &metas[at]);
        done.set(at, true);
        proof {
            pending_drops(was_done, at as int);
            assert forall|other: Set<u64>| #[trigger]
                closed_under_chains(metas@, other) && seed.subset_of(other) implies set@.subset_of(other) by {
                assert(was.subset_of(other));
                assert(other.contains(metas@[at as int].sequence));
                assert forall|s: u64| set@.contains(s) implies other.contains(s) by {
                    if !was.contains(s) {
                        assert(walks(metas@[at as int], s));
                    }
                }
            }
        }
        left = left - 1;
    }
    set
}

/// Snapshots still to be looked at.
spec fn pending(done: Seq<bool>) -> nat
    decreases done.len(),
{
    if done.len() == 0 {
        0
    } else {
        pending(done.drop_last()) + if done.last() {
            0nat
        } else {
            1nat
        }
    }
}

proof fn pending_drops(done: Seq<bool>, at: int)
    requires
        0 <= at < done.len(),
        !done[at],
    ensures
        pending(done) > 0,
        pending(done.update(at, true)) == pending(done) - 1,
    decreases done.len(),
{
    let now = done.update(at, true);
    if at == done.len() - 1 {
        assert(now.drop_last() =~= done.drop_last());
    } else {
        pending_drops(done.drop_last(), at);
        assert(now.drop_last() =~= done.drop_last().update(at, true));
    }
}

/// `p` keeps what the policy asks for of the sequences `all`, whose snapshots
/// are `metas`, and what those need.
pub open spec fn plans(
    p: RetentionPlan,
    all: Seq<u64>,
    metas: Seq<SnapshotMeta>,
    policy: RetentionPolicy,
    now_ms: i64,
) -> bool {
    &&& is_closure(metas, seeds(all, metas, policy, now_ms), p.retained@)
    &&& distinct_texts(p.live@)
    &&& forall|path: Seq<char>| #[trigger]
        holds_text(p.live@, path) <==> reachable(metas, p.retained@, path)
}

/// One of the snapshots could not be read.
pub open spec fn some_unread(read: Seq<Option<SnapshotMeta>>) -> bool {
    exists|i: int| 0 <= i < read.len() && #[trigger] read[i] is None
}

/// The snapshots that were read.
pub open spec fn those_read(read: Seq<Option<SnapshotMeta>>) -> Seq<SnapshotMeta> {
    read.map_values(|m: Option<SnapshotMeta>| m->Some_0)
}

/// Decides what a sweep keeps, or that there is none: `read` holds what was
/// read of the snapshots at the committed sequences `all`. An empty catalog
/// says nothing of what is in the store, and what an unreadable snapshot names
/// cannot be proved dead; neither may cost an object.
pub fn sweep_plan(
    all: &Vec<u64>,
    read: Vec<Option<SnapshotMeta>>,
    policy: &RetentionPolicy,
    now_ms: i64,
) -> (r: Option<RetentionPlan>)
    requires
        all@.len() == read@.len(),
    ensures
        r is None <==> all@.len() == 0 || some_unread(read@),
        r matches Some(p) ==> plans(p, all@, those_read(read@), *policy, now_ms),
{
    let ghost given = read@;
    if all.len() == 0 {
        return None;
    }
    let mut left = read;
    let mut reversed: Vec<SnapshotMeta> = Vec::new();
    while left.len() > 0
        invariant
            given == read@,
            left@.len() + reversed@.len() == given.len(),
            left@ == given.take(left@.len() as int),
            forall|i: int| left@.len() <= i < given.len() ==> #[trigger] given[i] is Some,
            forall|i: int|
                0 <= i < reversed@.len() ==> #[trigger] reversed@[i] == given[given.len() - 1
                    - i]->Some_0,
        decreases left@.len(),
    {
        let ghost n = left@.len();
        let last: Option<SnapshotMeta> = match left.pop() {
            Some(m) => m,
            None => None,
        };
        assert(last == given[n - 1]);
        assert(left@ =~= given.take(n - 1));
        match last {
            None => {
                assert(given[n - 1] is None);
                assert(some_unread(given));
                return None;
            },
            Some(m) => reversed.push(m),
        }
    }
    let mut metas: Vec<SnapshotMeta> = Vec::new();
    while reversed.len() > 0
        invariant
            reversed@.len() + metas@.len() == given.len(),
            forall|i: int|
                0 <= i < reversed@.len() ==> #[trigger] reversed@[i] == given[given.len() - 1
                    - i]->Some_0,
            metas@ == those_read(given).take(metas@.len() as int),
        decreases reversed@.len(),
    {
        let ghost was = metas@;
        if let Some(m) = reversed.pop() {
            metas.push(m);
            assert(metas@ =~= those_read(given).take(was.len() as int + 1));
        }
    }
    assert(metas@ =~= those_read(given));
    Some(plan(all, &metas, policy, now_ms))
}

/// Decides what a sweep keeps. `all` are the committed sequences, ascending,
/// and `metas` their snapshots in the same order.
pub fn plan(
    all: &Vec<u64>,
    metas: &Vec<SnapshotMeta>,
    policy: &RetentionPolicy,
    now_ms: i64,
) -> (p: RetentionPlan)
    requires
        all@.len() == metas@.len(),
        all@.len() > 0,
    ensures
        plans(p, all@, metas@, *policy, now_ms),
{
    let retained = close(metas, seed_sequences(all, metas, policy, now_ms));
    let mut live: Vec<String> = Vec::new();
    let mut i: usize = 0;
    while i < metas.len()
        invariant
            i <= metas.len(),
            distinct_texts(live@),
            forall|path: Seq<char>| #[trigger] holds_text(live@, path) <==> exists|j: int|
                j < i && #[trigger] names_retained(metas@, retained@, j, path),
        decreases metas.len() - i,
    {
        let ghost was = live@;
        let meta = &metas[i];
        if retained.contains(&meta.sequence) {
            add_names(&mut live, meta);
        }
        assert forall|path: Seq<char>| #[trigger] holds_text(live@, path) <==> exists|j: int|
            j < i + 1 && #[trigger] names_retained(metas@, retained@, j, path) by {
            if holds_text(was, path) {
                let j = choose|j: int| j < i && #[trigger] names_retained(metas@, retained@, j, path);
                assert(j < i + 1 && names_retained(metas@, retained@, j, path));
            }
            if holds_text(live@, path) && !holds_text(was, path) {
                assert(names_retained(metas@, retained@, i as int, path));
            }
        }
        i += 1;
    }
    assert forall|path: Seq<char>| #[trigger] holds_text(live@, path) <==> reachable(metas@, retained@, path) by {
        if reachable(metas@, retained@, path) {
            let j = choose|j: int| #[trigger] names_retained(metas@, retained@, j, path);
            assert(j < i && names_retained(metas@, retained@, j, path));
        }
    }
    RetentionPlan { retained, live }
}

/// Adds every path that `meta` names. Runs are read as they stand, so a
/// snapshot that fails validation still protects the objects it mentions.
fn add_names(live: &mut Vec<String>, meta: &SnapshotMeta)
    requires
        distinct_texts(old(live)@),
    ensures
        distinct_texts(final(live)@),
        forall|path: Seq<char>| #[trigger] holds_text(final(live)@, path) <==> holds_text(old(live)@, path) || names(*meta, path),
{
    let ghost before = live@;
    add_text(live, &meta.puffin_path);
    let mut f: usize = 0;
    while f < meta.data_files.len()
        invariant
            f <= meta.data_files.len(),
            distinct_texts(live@),
            forall|path: Seq<char>| #[trigger] holds_text(live@, path) <==> holds_text(before, path) || meta.puffin_path@ == path || exists|i: int| 0 <= i < f && (#[trigger] meta.data_files@[i]).path@ == path,
        decreases meta.data_files.len() - f,
    {
        let ghost was = live@;
        add_text(live, &meta.data_files[f].path);
        assert forall|path: Seq<char>| #[trigger] holds_text(live@, path) <==> holds_text(before, path) || meta.puffin_path@ == path || exists|i: int| 0 <= i < f + 1 && (#[trigger] meta.data_files@[i]).path@ == path by {
            assert(holds_text(live@, path) <==> holds_text(was, path) || path == meta.data_files@[f as int].path@);
            if exists|i: int| 0 <= i < f && (#[trigger] meta.data_files@[i]).path@ == path {
                let i = choose|i: int| 0 <= i < f && (#[trigger] meta.data_files@[i]).path@ == path;
                assert(meta.data_files@[i].path@ == path);
            }
        }
        f += 1;
    }
    let ghost files = live@;
    let mut r: usize = 0;
    while r < meta.runs.len()
        invariant
            r <= meta.runs.len(),
            distinct_texts(live@),
            forall|path: Seq<char>| #[trigger] holds_text(live@, path) <==> holds_text(files, path) || exists|i: int| 0 <= i < r && (#[trigger] meta.runs@[i]).path@ == path,
        decreases meta.runs.len() - r,
    {
        let ghost was = live@;
        add_text(live, &meta.runs[r].path);
        assert forall|path: Seq<char>| #[trigger] holds_text(live@, path) <==> holds_text(files, path) || exists|i: int| 0 <= i < r + 1 && (#[trigger] meta.runs@[i]).path@ == path by {
            assert(holds_text(live@, path) <==> holds_text(was, path) || path == meta.runs@[r as int].path@);
            if exists|i: int| 0 <= i < r && (#[trigger] meta.runs@[i]).path@ == path {
                let i = choose|i: int| 0 <= i < r && (#[trigger] meta.runs@[i]).path@ == path;
                assert(meta.runs@[i].path@ == path);
            }
        }
        r += 1;
    }
    assert forall|path: Seq<char>| #[trigger] holds_text(live@, path) <==> holds_text(before, path) || names(*meta, path) by {
        assert(holds_text(files, path) <==> holds_text(before, path) || meta.puffin_path@ == path || exists|i: int| 0 <= i < meta.data_files@.len() && (#[trigger] meta.data_files@[i]).path@ == path);
    }
}

/// What to do with an object.
#[derive(Debug, Clone, Copy, PartialEq, Eq, Structural)]
pub enum Verdict {
    /// A retained snapshot names it.
    Live,
    /// Nothing names it, but it may belong to a commit in flight.
    TooYoung,
    /// Nothing names it: delete it.
    Doomed,
}

/// Modified within the grace period.
pub open spec fn within_grace(policy: RetentionPolicy, now_ms: i64, modified_ms: i64) -> bool {
    modified_ms > now_ms - policy.grace_ms
}

impl RetentionPolicy {
    /// Whether something modified at `modified_ms` is inside the grace period.
    pub fn too_young(&self, now_ms: i64, modified_ms: i64) -> (r: bool)
        ensures
            r == within_grace(*self, now_ms, modified_ms),
            r <==> now_ms - modified_ms < self.grace_ms,
    {
        let since: i128 = now_ms as i128 - self.grace_ms as i128;
        modified_ms as i128 > since
    }
}

/// What to do with something that was modified at `modified_ms`, and that is
/// kept or not.
pub open spec fn verdict(
    kept: bool,
    policy: RetentionPolicy,
    now_ms: i64,
    modified_ms: i64,
) -> Verdict {
    if kept {
        Verdict::Live
    } else if within_grace(policy, now_ms, modified_ms) {
        Verdict::TooYoung
    } else {
        Verdict::Doomed
    }
}

impl RetentionPlan {
    /// What to do with the object at `path`.
    pub open spec fn object_verdict(
        &self,
        policy: RetentionPolicy,
        now_ms: i64,
        path: Seq<char>,
        modified_ms: i64,
    ) -> Verdict {
        verdict(holds_text(self.live@, path), policy, now_ms, modified_ms)
    }

    /// What to do with the metadata of the snapshot at `sequence`.
    pub open spec fn snapshot_verdict(
        &self,
        policy: RetentionPolicy,
        now_ms: i64,
        sequence: u64,
        modified_ms: i64,
    ) -> Verdict {
        verdict(self.retained@.contains(sequence), policy, now_ms, modified_ms)
    }

    /// What to do with the object at `path`.
    pub fn judge(&self, policy: &RetentionPolicy, now_ms: i64, path: &str, modified_ms: i64) -> (v:
        Verdict)
        ensures
            v == self.object_verdict(*policy, now_ms, path@, modified_ms),
            v == if holds_text(self.live@, path@) {
                Verdict::Live
            } else if now_ms - modified_ms < policy.grace_ms {
                Verdict::TooYoung
            } else {
                Verdict::Doomed
            },
    {
        if contains_text(&self.live, path) {
            Verdict::Live
        } else if policy.too_young(now_ms, modified_ms) {
            Verdict::TooYoung
        } else {
            Verdict::Doomed
        }
    }

    /// What to do with the metadata of the snapshot at `sequence`: it expires
    /// by policy, not by reachability.
    pub fn judge_snapshot(
        &self,
        policy: &RetentionPolicy,
        now_ms: i64,
        sequence: u64,
        modified_ms: i64,
    ) -> (v: Verdict)
        ensures
            v == self.snapshot_verdict(*policy, now_ms, sequence, modified_ms),
            v == if self.retained@.contains(sequence) {
                Verdict::Live
            } else if now_ms - modified_ms < policy.grace_ms {
                Verdict::TooYoung
            } else {
                Verdict::Doomed
            },
    {
        if self.retained.contains(&sequence) {
            Verdict::Live
        } else if policy.too_young(now_ms, modified_ms) {
            Verdict::TooYoung
        } else {
            Verdict::Doomed
        }
    }

    /// The report a sweep starts from.
    pub fn report(&self) -> (r: Reclaimed)
        ensures
            r == (Reclaimed {
                snapshots_kept: self.retained@.len() as u64,
                objects_live: self.live@.len() as u64,
                ..Reclaimed::nothing()
            }),
    {
        Reclaimed {
            snapshots_expired: 0,
            objects_deleted: 0,
            bytes_deleted: 0,
            snapshots_kept: self.retained.len() as u64,
            objects_live: self.live.len() as u64,
            objects_too_young: 0,
        }
    }
}

// --- laws ----------------------------------------------------------------------------------------------

/// **Nothing younger than the grace period is deleted, reachable or not**, and
/// what is neither that young nor kept goes: an object whose age is at least
/// the grace period and that no retained snapshot names, and the metadata of a
/// snapshot that is not retained.
pub proof fn the_grace_period_protects(
    p: RetentionPlan,
    policy: RetentionPolicy,
    now_ms: i64,
    path: Seq<char>,
    sequence: u64,
    modified_ms: i64,
)
    ensures
        now_ms - modified_ms < policy.grace_ms ==> {
            &&& p.object_verdict(policy, now_ms, path, modified_ms) != Verdict::Doomed
            &&& p.snapshot_verdict(policy, now_ms, sequence, modified_ms) != Verdict::Doomed
        },
        now_ms - modified_ms >= policy.grace_ms ==> {
            &&& p.object_verdict(policy, now_ms, path, modified_ms) == Verdict::Doomed <==> !exists|
                i: int,
            |
                0 <= i < p.live@.len() && (#[trigger] p.live@[i])@ == path
            &&& p.snapshot_verdict(policy, now_ms, sequence, modified_ms) == Verdict::Doomed
                <==> !p.retained@.contains(sequence)
        },
        p.object_verdict(policy, now_ms, path, modified_ms) == Verdict::Live <==> exists|i: int|
            0 <= i < p.live@.len() && (#[trigger] p.live@[i])@ == path,
        p.snapshot_verdict(policy, now_ms, sequence, modified_ms) == Verdict::Live
            <==> p.retained@.contains(sequence),
{
}

/// **A sweep deletes nothing that a retained snapshot names**: not its sidecar,
/// not a data file, not a run. And whatever it spares for being named, a
/// retained snapshot does name.
pub proof fn a_sweep_spares_what_is_named(
    p: RetentionPlan,
    all: Seq<u64>,
    metas: Seq<SnapshotMeta>,
    policy: RetentionPolicy,
    now_ms: i64,
    path: Seq<char>,
    modified_ms: i64,
)
    requires
        plans(p, all, metas, policy, now_ms),
    ensures
        p.object_verdict(policy, now_ms, path, modified_ms) == Verdict::Live <==> exists|i: int|
            0 <= i < metas.len() && p.retained@.contains((#[trigger] metas[i]).sequence) && {
                ||| metas[i].puffin_path@ == path
                ||| exists|f: int|
                    0 <= f < metas[i].data_files@.len() && (#[trigger] metas[i].data_files@[f]).path@
                        == path
                ||| exists|r: int|
                    0 <= r < metas[i].runs@.len() && (#[trigger] metas[i].runs@[r]).path@ == path
            },
{
    if p.object_verdict(policy, now_ms, path, modified_ms) == Verdict::Live {
        assert(reachable(metas, p.retained@, path));
        let i = choose|i: int| #[trigger] names_retained(metas, p.retained@, i, path);
        assert(p.retained@.contains(metas[i].sequence));
    }
    assert forall|i: int|
        0 <= i < metas.len() && p.retained@.contains((#[trigger] metas[i]).sequence) && {
            ||| metas[i].puffin_path@ == path
            ||| exists|f: int|
                0 <= f < metas[i].data_files@.len() && (#[trigger] metas[i].data_files@[f]).path@
                    == path
            ||| exists|r: int|
                0 <= r < metas[i].runs@.len() && (#[trigger] metas[i].runs@[r]).path@ == path
        }
    implies p.object_verdict(policy, now_ms, path, modified_ms) == Verdict::Live by {
        assert(names_retained(metas, p.retained@, i, path));
        assert(reachable(metas, p.retained@, path));
        assert(holds_text(p.live@, path));
    }
}

/// **A sweep keeps the newest and the recent**: the newest `keep_snapshots`,
/// whatever their age, and each that was committed at most `keep_for_ms` ago.
pub proof fn a_sweep_keeps_what_the_policy_asks(
    p: RetentionPlan,
    all: Seq<u64>,
    metas: Seq<SnapshotMeta>,
    policy: RetentionPolicy,
    now_ms: i64,
    i: int,
)
    requires
        plans(p, all, metas, policy, now_ms),
        0 <= i < all.len(),
    ensures
        all.len() - i <= policy.keep_snapshots ==> p.retained@.contains(all[i]),
        now_ms - metas[i].committed_at_ms <= policy.keep_for_ms ==> p.retained@.contains(all[i]),
        i == all.len() - 1 ==> p.retained@.contains(all[i]),
{
    if seeded(all, metas, policy, now_ms, i) {
        assert(seeds(all, metas, policy, now_ms).contains(all[i]));
    }
}

/// **A sweep keeps nothing without a reason**: what is retained is among the
/// newest `keep_snapshots`, or is the newest, or was committed at most
/// `keep_for_ms` ago, or another retained snapshot that describes itself as a
/// chain reads it: it lies between that snapshot's base and the snapshot.
pub proof fn a_sweep_keeps_nothing_more(
    p: RetentionPlan,
    all: Seq<u64>,
    metas: Seq<SnapshotMeta>,
    policy: RetentionPolicy,
    now_ms: i64,
    s: u64,
)
    requires
        plans(p, all, metas, policy, now_ms),
        p.retained@.contains(s),
    ensures
        ({
            ||| exists|i: int|
                0 <= i < all.len() && #[trigger] all[i] == s && (all.len() - i
                    <= policy.keep_snapshots || i == all.len() - 1 || now_ms
                    - metas[i].committed_at_ms <= policy.keep_for_ms)
            ||| exists|i: int|
                0 <= i < metas.len() && p.retained@.contains((#[trigger] metas[i]).sequence)
                    && metas[i].runs@.len() == 0 && metas[i].format_version == 0
                    && metas[i].base_sequence <= s < metas[i].sequence
        }),
{
    let start = seeds(all, metas, policy, now_ms);
    let without = p.retained@.remove(s);
    if start.contains(s) {
        let i = choose|i: int| #[trigger] seeded(all, metas, policy, now_ms, i) && all[i] == s;
        assert(all[i] == s);
    } else {
        assert(start.subset_of(without));
        if closed_under_chains(metas, without) {
            assert(p.retained@.subset_of(without));
            assert(without.contains(s));
        }
        let (i, t) = choose|i: int, t: u64|
            stands(metas, i) && without.contains(metas[i].sequence) && #[trigger] walks(
                metas[i],
                t,
            ) && !without.contains(t);
        assert(p.retained@.contains(t));
        assert(t == s);
        assert(p.retained@.contains(metas[i].sequence));
    }
}

/// **A chain is retained whole**: where a retained snapshot is the one that its
/// sequence stands for, and carries neither runs nor the format that says them,
/// every sequence from its base up to it is retained; from itself alone where
/// no base was recorded.
pub proof fn a_chain_is_retained_whole(
    p: RetentionPlan,
    all: Seq<u64>,
    metas: Seq<SnapshotMeta>,
    policy: RetentionPolicy,
    now_ms: i64,
    i: int,
    s: u64,
)
    requires
        plans(p, all, metas, policy, now_ms),
        0 <= i < metas.len(),
        forall|j: int| i < j < metas.len() ==> (#[trigger] metas[j]).sequence != metas[i].sequence,
        p.retained@.contains(metas[i].sequence),
        metas[i].runs@.len() == 0,
        metas[i].format_version == 0,
        0 < metas[i].base_sequence <= s <= metas[i].sequence,
    ensures
        p.retained@.contains(s),
{
    assert(stands(metas, i));
    assert(walks(metas[i], s));
}

/// **The newest snapshot is never expired**, whatever the policy says.
pub proof fn the_newest_snapshot_stays(
    all: Seq<u64>,
    metas: Seq<SnapshotMeta>,
    policy: RetentionPolicy,
    now_ms: i64,
    retained: Set<u64>,
)
    requires
        all.len() > 0,
        is_closure(metas, seeds(all, metas, policy, now_ms), retained),
    ensures
        retained.contains(all.last()),
{
    assert(seeded(all, metas, policy, now_ms, all.len() - 1));
    assert(seeds(all, metas, policy, now_ms).contains(all.last()));
}

/// **A retained snapshot keeps what it needs**: whatever it names stays live,
/// and where it walks a chain, every snapshot of the chain is retained and
/// keeps what it names too.
pub proof fn a_retained_snapshot_keeps_what_it_needs(
    metas: Seq<SnapshotMeta>,
    start: Set<u64>,
    retained: Set<u64>,
    i: int,
    j: int,
    path: Seq<char>,
)
    requires
        is_closure(metas, start, retained),
        stands(metas, i),
        0 <= j < metas.len(),
        retained.contains(metas[i].sequence),
        i == j || walks(metas[i], metas[j].sequence),
        names(metas[j], path),
    ensures
        retained.contains(metas[j].sequence),
        reachable(metas, retained, path),
{
    assert(names_retained(metas, retained, j, path));
}

/// The snapshots that survive a sweep.
pub open spec fn survivors(metas: Seq<SnapshotMeta>, retained: Set<u64>) -> Seq<SnapshotMeta>
    decreases metas.len(),
{
    if metas.len() == 0 {
        Seq::empty()
    } else {
        let before = survivors(metas.drop_last(), retained);
        if retained.contains(metas.last().sequence) {
            before.push(metas.last())
        } else {
            before
        }
    }
}

/// The sequences of `metas`.
pub open spec fn sequences(metas: Seq<SnapshotMeta>) -> Seq<u64> {
    metas.map_values(|m: SnapshotMeta| m.sequence)
}

proof fn survivors_are(metas: Seq<SnapshotMeta>, retained: Set<u64>)
    ensures
        forall|i: int| 0 <= i < survivors(metas, retained).len() ==> retained.contains((#[trigger] survivors(metas, retained)[i]).sequence),
        forall|i: int| 0 <= i < metas.len() && retained.contains((#[trigger] metas[i]).sequence) ==> survivors(metas, retained).contains(metas[i]),
        survivors(metas, retained).len() <= metas.len(),
        forall|k: int| #[trigger]
            tail_retained(metas, retained, k) ==> survivors(metas, retained).len() >= k
                && same_tail(metas, survivors(metas, retained), k),
    decreases metas.len(),
{
    let out = survivors(metas, retained);
    if metas.len() > 0 {
        let front = metas.drop_last();
        let last = metas.last();
        survivors_are(front, retained);
        let before = survivors(front, retained);
        assert forall|i: int|
            0 <= i < out.len()
        implies retained.contains((#[trigger] out[i]).sequence) by {
            if i < before.len() {
                assert(retained.contains(before[i].sequence));
            }
        }
        assert forall|i: int|
            0 <= i < metas.len() && retained.contains((#[trigger] metas[i]).sequence)
        implies out.contains(metas[i]) by {
            if i < front.len() {
                assert(front[i] == metas[i]);
                let j = before.index_of(metas[i]);
                assert(out[j] == metas[i]);
            } else {
                assert(out[out.len() - 1] == last);
            }
        }
        assert forall|k: int| #[trigger] tail_retained(metas, retained, k) implies out.len() >= k
            && same_tail(metas, out, k) by {
            if k > 0 {
                assert(retained.contains(metas[metas.len() - 1].sequence));
                assert forall|i: int|
                    front.len() - (k - 1) <= i < front.len()
                implies retained.contains((#[trigger] front[i]).sequence) by {
                    assert(retained.contains(metas[i].sequence));
                }
                assert(tail_retained(front, retained, k - 1));
                assert(same_tail(front, before, k - 1));
                assert forall|d: int|
                    0 < d <= k
                implies #[trigger] metas[metas.len() - d] == out[out.len() - d] by {
                    if d > 1 {
                        assert(front[front.len() - (d - 1)] == before[before.len() - (d - 1)]);
                    }
                }
            }
        }
    }
}

/// A retained snapshot that stands for its sequence still does.
proof fn standing_survives(metas: Seq<SnapshotMeta>, retained: Set<u64>, i: int) -> (j: int)
    requires
        stands(metas, i),
        retained.contains(metas[i].sequence),
    ensures
        stands(survivors(metas, retained), j),
        survivors(metas, retained)[j] == metas[i],
    decreases metas.len(),
{
    let out = survivors(metas, retained);
    let n = metas.len() - 1;
    if i == n {
        out.len() - 1
    } else {
        let front = metas.drop_last();
        assert forall|k: int| i < k < front.len() implies (#[trigger] front[k]).sequence
            != front[i].sequence by {
            assert(metas[k].sequence != metas[i].sequence);
        }
        let j = standing_survives(front, retained, i);
        let before = survivors(front, retained);
        assert(metas[n].sequence != metas[i].sequence);
        assert forall|k: int| j < k < out.len() implies (#[trigger] out[k]).sequence
            != out[j].sequence by {
            if k < before.len() {
                assert(before[k].sequence != before[j].sequence);
            }
        }
        j
    }
}

/// The last `k` of `metas` are retained.
pub open spec fn tail_retained(metas: Seq<SnapshotMeta>, retained: Set<u64>, k: int) -> bool {
    &&& 0 <= k <= metas.len()
    &&& forall|i: int|
        metas.len() - k <= i < metas.len() ==> retained.contains((#[trigger] metas[i]).sequence)
}

/// The last `k` of both are the same.
pub open spec fn same_tail(a: Seq<SnapshotMeta>, b: Seq<SnapshotMeta>, k: int) -> bool {
    forall|d: int| 0 < d <= k ==> #[trigger] a[a.len() - d] == b[b.len() - d]
}

/// **A second sweep is a no-op**: swept again under the same policy at the same
/// moment, the surviving snapshots all stay.
pub proof fn a_second_sweep_expires_nothing(
    metas: Seq<SnapshotMeta>,
    policy: RetentionPolicy,
    now_ms: i64,
    retained: Set<u64>,
    again: Set<u64>,
)
    requires
        is_closure(metas, seeds(sequences(metas), metas, policy, now_ms), retained),
        is_closure(
            survivors(metas, retained),
            seeds(
                sequences(survivors(metas, retained)),
                survivors(metas, retained),
                policy,
                now_ms,
            ),
            again,
        ),
    ensures
        forall|i: int|
            0 <= i < survivors(metas, retained).len() ==> again.contains(
                (#[trigger] survivors(metas, retained)[i]).sequence,
            ),
{
    let left = survivors(metas, retained);
    let all = sequences(metas);
    let all2 = sequences(left);
    let first = seeds(all, metas, policy, now_ms);
    let second = seeds(all2, left, policy, now_ms);
    survivors_are(metas, retained);
    let both = again.intersect(retained);
    // What was kept for its own sake still is.
    assert forall|s: u64| first.contains(s) implies second.contains(s) by {
        let i = choose|i: int| #[trigger] seeded(all, metas, policy, now_ms, i) && all[i] == s;
        assert(retained.contains(metas[i].sequence)) by {
            assert(first.contains(metas[i].sequence));
        }
        if recent(metas[i], policy, now_ms) {
            assert(left.contains(metas[i]));
            let j = left.index_of(metas[i]);
            assert(seeded(all2, left, policy, now_ms, j) && all2[j] == s);
        } else {
            let keep = kept_count(policy);
            let k = if keep <= metas.len() {
                keep
            } else {
                metas.len() as int
            };
            assert forall|x: int|
                metas.len() - k <= x < metas.len()
            implies retained.contains((#[trigger] metas[x]).sequence) by {
                assert(seeded(all, metas, policy, now_ms, x));
                assert(first.contains(all[x]));
            }
            assert(tail_retained(metas, retained, k));
            assert(same_tail(metas, left, k));
            let d = metas.len() - i;
            assert(metas[metas.len() - d] == left[left.len() - d]);
            let j = left.len() - d;
            assert(seeded(all2, left, policy, now_ms, j) && all2[j] == s);
        }
    }
    assert(first.subset_of(both)) by {
        assert forall|s: u64| first.contains(s) implies both.contains(s) by {
            assert(second.contains(s));
        }
    }
    assert(closed_under_chains(metas, both)) by {
        assert forall|i: int, s: u64|
            stands(metas, i) && both.contains(metas[i].sequence) && #[trigger] walks(metas[i], s)
        implies both.contains(s) by {
            let j = standing_survives(metas, retained, i);
            assert(walks(left[j], s));
        }
    }
    assert(retained.subset_of(both));
    assert forall|i: int|
        0 <= i < left.len()
    implies again.contains((#[trigger] left[i]).sequence) by {
        assert(retained.contains(left[i].sequence));
        assert(both.contains(left[i].sequence));
    }
}

/// **One unreadable snapshot stops the sweep**, wherever it is, and a sweep takes
/// each of the others as it was read.
pub proof fn an_unreadable_snapshot_stops_the_sweep(read: Seq<Option<SnapshotMeta>>, i: int)
    requires
        0 <= i < read.len(),
    ensures
        read[i] is None ==> some_unread(read),
        !some_unread(read) ==> those_read(read).len() == read.len() && read[i] == Some(
            those_read(read)[i],
        ),
{
}

/// **A judgement spares the young and the kept, and dooms the rest**, whatever was
/// asked: an object by its path, a snapshot by its sequence.
pub proof fn a_judgement_spares_the_young(
    p: RetentionPlan,
    policy: RetentionPolicy,
    now_ms: i64,
    path: &str,
    sequence: u64,
    modified_ms: i64,
    v: Verdict,
    s: Verdict,
)
    requires
        call_ensures(RetentionPlan::judge, (&p, &policy, now_ms, path, modified_ms), v),
        call_ensures(
            RetentionPlan::judge_snapshot,
            (&p, &policy, now_ms, sequence, modified_ms),
            s,
        ),
    ensures
        now_ms - modified_ms < policy.grace_ms ==> v != Verdict::Doomed && s != Verdict::Doomed,
        now_ms - modified_ms >= policy.grace_ms ==> v != Verdict::TooYoung && s
            != Verdict::TooYoung,
        v == Verdict::Live <==> exists|i: int|
            0 <= i < p.live@.len() && (#[trigger] p.live@[i])@ == path@,
        s == Verdict::Live <==> p.retained@.contains(sequence),
{
}

/// **A sweep is planned only where everything was read**, and then keeps what the
/// policy asks for: the newest and the recent.
pub proof fn a_sweep_is_planned_where_everything_was_read(
    all: Vec<u64>,
    read: Vec<Option<SnapshotMeta>>,
    policy: RetentionPolicy,
    now_ms: i64,
    r: Option<RetentionPlan>,
    i: int,
)
    requires
        all@.len() == read@.len(),
        call_ensures(sweep_plan, (&all, read, &policy, now_ms), r),
        0 <= i < all@.len(),
    ensures
        read@[i] is None ==> r is None,
        r is None ==> exists|j: int| 0 <= j < read@.len() && #[trigger] read@[j] is None,
        r matches Some(p) ==> (all@.len() - i <= policy.keep_snapshots ==> p.retained@.contains(
            all@[i],
        )),
        r matches Some(p) ==> (now_ms - read@[i]->Some_0.committed_at_ms <= policy.keep_for_ms
            ==> p.retained@.contains(all@[i])),
        r matches Some(p) ==> p.retained@.contains(all@.last()),
{
    an_unreadable_snapshot_stops_the_sweep(read@, i);
    if let Some(p) = r {
        let metas = those_read(read@);
        assert(metas[i] == read@[i]->Some_0);
        a_sweep_keeps_what_the_policy_asks(p, all@, metas, policy, now_ms, i);
        a_sweep_keeps_what_the_policy_asks(p, all@, metas, policy, now_ms, all@.len() - 1);
    }
}

} // verus!
