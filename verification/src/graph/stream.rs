//! Where a worker stands in its input stream.
//!
//! - A [`StreamPosition`] is a map of partition to highest-applied offset, not
//!   a scalar, because offsets are assigned per partition: offset 5000 in
//!   partition 3 has nothing to do with offset 5000 in partition 7.
//! - A [`StreamId`] names the stream those offsets are in. Offsets without it
//!   are numbers without units.
//!
//! The order on positions is **partial**: `{0:5, 1:9}` and `{0:9, 1:5}` neither
//! dominates the other. That matters in two places: deciding when a buffered
//! segment is durable, and checking that a commit advances.

use std::collections::BTreeMap;
use vstd::prelude::*;
use vstd::std_specs::btree::increasing_seq;
use vstd::std_specs::cmp::OrdSpec;
use vstd::std_specs::iter::IteratorSpec;
use vstd::string::*;

use crate::text::{decimal, push_decimal};

verus! {

broadcast use vstd::std_specs::btree::group_btree_axioms;

/// A partition of the input stream. Single-partition sources use `0`.
pub type PartitionId = u32;

/// Highest offset applied per partition, inclusive.
///
/// A partition absent from the map has had nothing applied, and offset `0` is
/// reserved for precisely that meaning, so absent and zero agree. That is what
/// lets a topic **grow** partitions without any metadata describing the
/// topology.
#[derive(Debug, PartialEq, Eq)]
pub struct StreamPosition {
    offsets: BTreeMap<PartitionId, u64>,
}

/// The offset applied to `p`; zero where nothing was.
pub open spec fn applied(m: Map<PartitionId, u64>, p: PartitionId) -> u64 {
    if m.contains_key(p) {
        m[p]
    } else {
        0
    }
}

pub open spec fn larger(a: u64, b: u64) -> u64 {
    if a >= b {
        a
    } else {
        b
    }
}

/// `m` with `p` applied through `offset`, never backwards.
pub open spec fn advanced(m: Map<PartitionId, u64>, p: PartitionId, offset: u64) -> Map<
    PartitionId,
    u64,
> {
    m.insert(p, larger(applied(m, p), offset))
}

/// The per-partition maximum of both.
pub open spec fn joined(a: Map<PartitionId, u64>, b: Map<PartitionId, u64>) -> Map<
    PartitionId,
    u64,
> {
    Map::new(
        |p: PartitionId| a.contains_key(p) || b.contains_key(p),
        |p: PartitionId| larger(applied(a, p), applied(b, p)),
    )
}

/// Every partition of `b` is at or behind `a`.
pub open spec fn covers(a: Map<PartitionId, u64>, b: Map<PartitionId, u64>) -> bool {
    forall|p: PartitionId| #[trigger] b.contains_key(p) ==> applied(a, p) >= b[p]
}

/// `entries`, applied one after the other.
pub open spec fn all_advanced(m: Map<PartitionId, u64>, entries: Seq<(PartitionId, u64)>) -> Map<
    PartitionId,
    u64,
>
    decreases entries.len(),
{
    if entries.len() == 0 {
        m
    } else {
        advanced(all_advanced(m, entries.drop_last()), entries.last().0, entries.last().1)
    }
}

/// `entries` lists `m` in ascending partition order.
pub open spec fn lists_partitions(
    entries: Seq<(PartitionId, u64)>,
    m: Map<PartitionId, u64>,
) -> bool {
    &&& forall|i: int, j: int|
        0 <= i < j < entries.len() ==> (#[trigger] entries[i]).0 < (#[trigger] entries[j]).0
    &&& forall|i: int|
        0 <= i < entries.len() ==> m.contains_key((#[trigger] entries[i]).0) && m[entries[i].0]
            == entries[i].1
    &&& forall|p: PartitionId| #[trigger] m.contains_key(p) ==> entries.contains((p, m[p]))
}

/// One of the first `n` entries is of partition `p`.
spec fn names(entries: Seq<(PartitionId, u64)>, n: int, p: PartitionId) -> bool {
    exists|j: int| 0 <= j < n && (#[trigger] entries[j]).0 == p
}

/// The scalar that says the same as `m`, where there is one.
pub open spec fn scalar_of(m: Map<PartitionId, u64>) -> Option<u64> {
    if m.dom().len() == 0 {
        Some(0)
    } else if m.dom().len() == 1 && m.contains_key(0) {
        Some(m[0])
    } else {
        None
    }
}

/// `entries` as text: `p:o,p:o`.
pub open spec fn entries_text(entries: Seq<(PartitionId, u64)>) -> Seq<char>
    decreases entries.len(),
{
    if entries.len() == 0 {
        Seq::empty()
    } else {
        let before = entries_text(entries.drop_last());
        let sep = if entries.len() == 1 {
            Seq::empty()
        } else {
            ","@
        };
        before + sep + decimal(entries.last().0 as nat) + ":"@ + decimal(entries.last().1 as nat)
    }
}

impl View for StreamPosition {
    type V = Map<PartitionId, u64>;

    closed spec fn view(&self) -> Map<PartitionId, u64> {
        self.offsets@
    }
}

impl Clone for StreamPosition {
    fn clone(&self) -> (p: StreamPosition)
        ensures
            p@ == self@,
    {
        StreamPosition { offsets: self.offsets.clone() }
    }
}

impl Default for StreamPosition {
    fn default() -> (p: StreamPosition)
        ensures
            p@ == Map::<PartitionId, u64>::empty(),
    {
        StreamPosition { offsets: BTreeMap::new() }
    }
}

impl StreamPosition {
    pub fn new() -> (p: StreamPosition)
        ensures
            p@ == Map::<PartitionId, u64>::empty(),
    {
        StreamPosition::default()
    }

    /// A single-partition position, which is what a file log or a
    /// single-partition topic produces.
    pub fn single(offset: u64) -> (p: StreamPosition)
        ensures
            p@ == Map::<PartitionId, u64>::empty().insert(0, offset),
    {
        let mut p = StreamPosition::new();
        p.advance(0, offset);
        p
    }

    /// The position that `entries`, applied in order, give.
    pub fn from_entries(entries: &[(PartitionId, u64)]) -> (p: StreamPosition)
        ensures
            p@ == all_advanced(Map::empty(), entries@),
    {
        let mut p = StreamPosition::new();
        let mut i: usize = 0;
        while i < entries.len()
            invariant
                i <= entries.len(),
                p@ == all_advanced(Map::empty(), entries@.take(i as int)),
            decreases entries.len() - i,
        {
            p.advance(entries[i].0, entries[i].1);
            assert(entries@.take(i + 1).drop_last() =~= entries@.take(i as int));
            i += 1;
        }
        assert(entries@.take(i as int) =~= entries@);
        p
    }

    /// Highest offset applied to `partition`; `0` if nothing has been.
    pub fn get(&self, partition: PartitionId) -> (offset: u64)
        ensures
            offset == applied(self@, partition),
    {
        match self.offsets.get(&partition) {
            Some(o) => *o,
            None => 0,
        }
    }

    /// Records that `partition` has been applied through `offset`.
    ///
    /// Takes the maximum rather than overwriting, so a caller that observes
    /// records out of order, or replays a prefix, cannot walk a partition
    /// backwards.
    pub fn advance(&mut self, partition: PartitionId, offset: u64)
        ensures
            final(self)@ == advanced(old(self)@, partition, offset),
    {
        let was: u64 = self.get(partition);
        let now: u64 = if was >= offset {
            was
        } else {
            offset
        };
        self.offsets.insert(partition, now);
    }

    /// Takes the per-partition maximum of both.
    pub fn merge(&mut self, other: &StreamPosition)
        ensures
            final(self)@ == joined(old(self)@, other@),
    {
        let entries = other.iter();
        let ghost before = self@;
        let mut i: usize = 0;
        while i < entries.len()
            invariant
                i <= entries.len(),
                lists_partitions(entries@, other@),
                forall|p: PartitionId| #[trigger]
                    self@.contains_key(p) <==> before.contains_key(p) || names(
                        entries@,
                        i as int,
                        p,
                    ),
                forall|j: int|
                    0 <= j < i ==> #[trigger] applied(self@, entries@[j].0) == larger(
                        applied(before, entries@[j].0),
                        entries@[j].1,
                    ),
                forall|p: PartitionId|
                    (forall|j: int| 0 <= j < i ==> (#[trigger] entries@[j]).0 != p)
                        ==> #[trigger] applied(self@, p) == applied(before, p),
            decreases entries.len() - i,
        {
            let (p, o): (PartitionId, u64) = entries[i];
            assert forall|j: int| 0 <= j < i implies (#[trigger] entries@[j]).0 != p by {
                assert(entries@[j].0 < entries@[i as int].0);
            }
            let ghost was = self@;
            assert(applied(was, p) == applied(before, p));
            self.advance(p, o);
            proof {
                assert forall|q: PartitionId| #[trigger]
                    self@.contains_key(q) <==> before.contains_key(q) || names(
                        entries@,
                        i + 1,
                        q,
                    ) by {
                    if q == p {
                        assert(entries@[i as int].0 == q);
                    } else {
                        assert(self@.contains_key(q) <==> was.contains_key(q));
                        if names(entries@, i as int, q) {
                            let j = choose|j: int| 0 <= j < i && (#[trigger] entries@[j]).0 == q;
                            assert(entries@[j].0 == q);
                        }
                        if names(entries@, i + 1, q) {
                            let j = choose|j: int| 0 <= j < i + 1 && (#[trigger] entries@[j]).0 == q;
                            assert(entries@[j].0 == q && j < i);
                        }
                    }
                }
                assert forall|j: int| 0 <= j < i + 1 implies #[trigger] applied(
                    self@,
                    entries@[j].0,
                ) == larger(applied(before, entries@[j].0), entries@[j].1) by {
                    if j < i {
                        assert(applied(was, entries@[j].0) == larger(
                            applied(before, entries@[j].0),
                            entries@[j].1,
                        ));
                    }
                }
                assert forall|q: PartitionId|
                    (forall|j: int| 0 <= j < i + 1 ==> (#[trigger] entries@[j]).0 != q) implies
                    #[trigger] applied(self@, q) == applied(before, q) by {
                    assert(entries@[i as int].0 != q);
                    assert(applied(was, q) == applied(before, q));
                }
            }
            i += 1;
        }
        proof {
            let want = joined(before, other@);
            assert forall|p: PartitionId| self@.contains_key(p) == want.contains_key(p) by {
                if other@.contains_key(p) {
                    assert(entries@.contains((p, other@[p])));
                    let j = entries@.index_of((p, other@[p]));
                    assert(entries@[j].0 == p);
                }
                if names(entries@, i as int, p) {
                    let j = choose|j: int| 0 <= j < i && (#[trigger] entries@[j]).0 == p;
                    assert(other@.contains_key(entries@[j].0));
                }
            }
            assert(self@.dom() =~= want.dom());
            assert forall|p: PartitionId| want.contains_key(p) implies self@[p] == want[p] by {
                if other@.contains_key(p) {
                    assert(entries@.contains((p, other@[p])));
                    let j = entries@.index_of((p, other@[p]));
                    assert(applied(self@, entries@[j].0) == larger(
                        applied(before, entries@[j].0),
                        entries@[j].1,
                    ));
                } else {
                    assert forall|j: int| 0 <= j < i implies (#[trigger] entries@[j]).0 != p by {
                        assert(other@.contains_key(entries@[j].0));
                    }
                    assert(applied(self@, p) == applied(before, p));
                }
            }
            assert(self@ =~= want);
        }
    }

    /// Whether every partition in `other` is at or behind `self`.
    ///
    /// Not a total order: two positions may each fail to dominate the other,
    /// and code that assumes otherwise is assuming a single partition.
    pub fn dominates(&self, other: &StreamPosition) -> (r: bool)
        ensures
            r == covers(self@, other@),
    {
        let entries = other.iter();
        let mut i: usize = 0;
        while i < entries.len()
            invariant
                i <= entries.len(),
                lists_partitions(entries@, other@),
                forall|j: int|
                    0 <= j < i ==> applied(self@, (#[trigger] entries@[j]).0) >= entries@[j].1,
            decreases entries.len() - i,
        {
            if self.get(entries[i].0) < entries[i].1 {
                assert(other@.contains_key(entries@[i as int].0));
                return false;
            }
            i += 1;
        }
        assert forall|p: PartitionId| #[trigger] other@.contains_key(p) implies applied(self@, p)
            >= other@[p] by {
            assert(entries@.contains((p, other@[p])));
            let j = entries@.index_of((p, other@[p]));
            assert(applied(self@, entries@[j].0) >= entries@[j].1);
        }
        true
    }

    /// Partitions with a recorded offset, ascending.
    pub fn partitions(&self) -> (v: Vec<PartitionId>)
        ensures
            forall|i: int, j: int| 0 <= i < j < v@.len() ==> #[trigger] v@[i] < #[trigger] v@[j],
            forall|p: PartitionId| v@.contains(p) <==> #[trigger] self@.contains_key(p),
    {
        let entries = self.iter();
        let mut v: Vec<PartitionId> = Vec::new();
        let mut i: usize = 0;
        while i < entries.len()
            invariant
                i <= entries.len(),
                v@.len() == i,
                forall|j: int| 0 <= j < i ==> #[trigger] v@[j] == entries@[j].0,
            decreases entries.len() - i,
        {
            v.push(entries[i].0);
            i += 1;
        }
        proof {
            assert forall|a: int, b: int| 0 <= a < b < v@.len() implies #[trigger] v@[a]
                < #[trigger] v@[b] by {
                assert(entries@[a].0 < entries@[b].0);
            }
            assert forall|p: PartitionId| v@.contains(p) <==> #[trigger] self@.contains_key(p) by {
                if v@.contains(p) {
                    let j = v@.index_of(p);
                    assert(self@.contains_key(entries@[j].0));
                }
                if self@.contains_key(p) {
                    assert(entries@.contains((p, self@[p])));
                    let j = entries@.index_of((p, self@[p]));
                    assert(v@[j] == p);
                }
            }
        }
        v
    }

    /// Partitions with their offsets, ascending.
    pub fn iter(&self) -> (v: Vec<(PartitionId, u64)>)
        ensures
            lists_partitions(v@, self@),
            v@.len() == self@.dom().len(),
    {
        let mut v: Vec<(PartitionId, u64)> = Vec::new();
        let walk = self.offsets.iter();
        let ghost all = walk.remaining();
        for kv in it: walk
            invariant
                it.seq() == all,
                v@.len() == it.index(),
                forall|j: int|
                    0 <= j < v@.len() ==> (#[trigger] v@[j]).0 == *all[j].0 && v@[j].1 == *all[j].1,
        {
            v.push((*kv.0, *kv.1));
        }
        proof {
            let keys = all.map_values(|kv: (&PartitionId, &u64)| *kv.0);
            assert(v@.len() == all.len());
            assert(increasing_seq(keys));
            assert forall|i: int, j: int| 0 <= i < j < v@.len() implies (#[trigger] v@[i]).0 < (
            #[trigger] v@[j]).0 by {
                assert(keys[i].cmp_spec(&keys[j]) is Less);
            }
            assert forall|i: int|
                0 <= i < v@.len()
            implies self@.contains_key((#[trigger] v@[i]).0) && self@[v@[i].0] == v@[i].1 by {
                assert(self@.contains_key(*all[i].0));
            }
            assert forall|p: PartitionId|
                #[trigger] self@.contains_key(p)
            implies v@.contains((p, self@[p])) by {
                assert(all.contains((&p, &self@[p])));
                let i = all.index_of((&p, &self@[p]));
                assert(v@[i] == (p, self@[p]));
            }
        }
        v
    }

    pub fn is_empty(&self) -> (r: bool)
        ensures
            r == (self@.dom().len() == 0),
    {
        self.len() == 0
    }

    pub fn len(&self) -> (n: usize)
        ensures
            n == self@.dom().len(),
    {
        self.offsets.len()
    }

    /// The scalar equivalent, when there is one.
    ///
    /// `Some` only for a position that is empty or covers partition 0 alone:
    /// the shapes where a `u64` is not an approximation but the same number.
    pub fn as_scalar(&self) -> (r: Option<u64>)
        ensures
            r == scalar_of(self@),
    {
        let n: usize = self.len();
        if n == 0 {
            Some(0)
        } else if n == 1 {
            match self.offsets.get(&0) {
                Some(o) => Some(*o),
                None => None,
            }
        } else {
            None
        }
    }
}

/// The entries of `m` in ascending partition order.
pub open spec fn partitions_of(m: Map<PartitionId, u64>) -> Seq<(PartitionId, u64)> {
    choose|entries: Seq<(PartitionId, u64)>| lists_partitions(entries, m)
}

/// There is one list of the entries in ascending order.
pub proof fn partitions_of_is(m: Map<PartitionId, u64>, entries: Seq<(PartitionId, u64)>)
    requires
        lists_partitions(entries, m),
    ensures
        partitions_of(m) == entries,
{
    let a = entries;
    let b = partitions_of(m);
    assert(lists_partitions(b, m));
    let ka = a.map_values(|e: (PartitionId, u64)| e.0);
    let kb = b.map_values(|e: (PartitionId, u64)| e.0);
    assert forall|i: int, j: int|
        0 <= i < j < ka.len()
    implies #[trigger] ka[i] < #[trigger] ka[j] by {
        assert(a[i].0 < a[j].0);
    }
    assert forall|i: int, j: int|
        0 <= i < j < kb.len()
    implies #[trigger] kb[i] < #[trigger] kb[j] by {
        assert(b[i].0 < b[j].0);
    }
    assert forall|p: PartitionId| ka.to_set().contains(p) == kb.to_set().contains(p) by {
        if ka.contains(p) {
            let i = ka.index_of(p);
            assert(m.contains_key(a[i].0));
            assert(b.contains((p, m[p])));
            let j = b.index_of((p, m[p]));
            assert(kb[j] == p);
        }
        if kb.contains(p) {
            let i = kb.index_of(p);
            assert(m.contains_key(b[i].0));
            assert(a.contains((p, m[p])));
            let j = a.index_of((p, m[p]));
            assert(ka[j] == p);
        }
    }
    assert(ka.to_set() =~= kb.to_set());
    super::sorting::scopes_in_order_is(ka);
    super::sorting::scopes_in_order_is(kb);
    assert(ka == kb);
    assert(a.len() == ka.len() && b.len() == kb.len());
    assert forall|i: int| 0 <= i < a.len() implies a[i] == b[i] by {
        assert(ka[i] == kb[i]);
        assert(m.contains_key(a[i].0) && m.contains_key(b[i].0));
    }
    assert(a =~= b);
}

/// What [`StreamPosition::to_text`] writes.
pub open spec fn position_text(m: Map<PartitionId, u64>) -> Seq<char> {
    let entries = partitions_of(m);
    if entries.len() == 0 {
        "(nothing)"@
    } else {
        entries_text(entries)
    }
}

impl StreamPosition {
    /// The position as text: `p:o` per partition, ascending, or `(nothing)`.
    pub fn to_text(&self) -> (s: String)
        ensures
            s@ == position_text(self@),
    {
        let entries = self.iter();
        proof {
            partitions_of_is(self@, entries@);
        }
        if entries.len() == 0 {
            return String::from_str("(nothing)");
        }
        let mut s = String::new();
        let mut i: usize = 0;
        assert(s@ =~= entries_text(entries@.take(0)));
        while i < entries.len()
            invariant
                i <= entries.len(),
                s@ == entries_text(entries@.take(i as int)),
            decreases entries.len() - i,
        {
            let ghost before = s@;
            if i > 0 {
                s.append(",");
            }
            push_decimal(&mut s, entries[i].0 as u64);
            s.append(":");
            push_decimal(&mut s, entries[i].1);
            proof {
                let next = entries@.take(i + 1);
                assert(next.drop_last() =~= entries@.take(i as int));
                assert(next.last() == entries@[i as int]);
                assert(s@ =~= entries_text(next));
            }
            i += 1;
        }
        assert(entries@.take(i as int) =~= entries@);
        s
    }
}

/// What stream a set of offsets is measured in.
///
/// `group` is here because operators reconcile the committed position against
/// the broker's committed offsets, and those two are supposed to differ.
#[derive(Debug, PartialEq, Eq)]
pub struct StreamId {
    /// What kind of thing assigned these offsets: `kafka`, `file`, `api`.
    pub source: String,
    /// Topic name, or the log path.
    pub name: String,
    /// Consumer group or client identity, where the source has one.
    pub group: Option<String>,
}

/// What a [`StreamId`] says.
#[verifier::ext_equal]
pub ghost struct StreamIdView {
    pub source: Seq<char>,
    pub name: Seq<char>,
    pub group: Option<Seq<char>>,
}

impl View for StreamId {
    type V = StreamIdView;

    open spec fn view(&self) -> StreamIdView {
        StreamIdView {
            source: self.source@,
            name: self.name@,
            group: match self.group {
                Some(g) => Some(g@),
                None => None,
            },
        }
    }
}

impl Clone for StreamId {
    fn clone(&self) -> (s: StreamId)
        ensures
            s@ == self@,
    {
        StreamId {
            source: self.source.clone(),
            name: self.name.clone(),
            group: match &self.group {
                Some(g) => Some(g.clone()),
                None => None,
            },
        }
    }
}

/// Offsets committed against one may be resumed against the other.
pub open spec fn one_stream(a: StreamIdView, b: StreamIdView) -> bool {
    a.source == b.source && a.name == b.name
}

/// What [`StreamId::to_text`] writes.
pub open spec fn stream_text(s: StreamIdView) -> Seq<char> {
    s.source + "://"@ + s.name + match s.group {
        Some(g) => " (group "@ + g + ")"@,
        None => Seq::empty(),
    }
}

impl StreamId {
    pub fn new(source: &str, name: &str) -> (s: StreamId)
        ensures
            s@ == (StreamIdView { source: source@, name: name@, group: None }),
    {
        StreamId { source: String::from_str(source), name: String::from_str(name), group: None }
    }

    pub fn with_group(self, group: &str) -> (s: StreamId)
        ensures
            s@ == (StreamIdView { group: Some(group@), ..self@ }),
    {
        StreamId { source: self.source, name: self.name, group: Some(String::from_str(group)) }
    }

    /// Whether offsets committed against `self` may be resumed against `other`.
    ///
    /// Deliberately ignores `group`: which consumer group read the records
    /// does not change what offset 5000 of a topic *is*.
    pub fn same_stream(&self, other: &StreamId) -> (r: bool)
        ensures
            r == one_stream(self@, other@),
    {
        self.source == other.source && self.name == other.name
    }

    /// The stream as text: `source://name`, with the group where it has one.
    pub fn to_text(&self) -> (s: String)
        ensures
            s@ == stream_text(self@),
    {
        let mut s = self.source.clone();
        s.append("://");
        s.append(self.name.as_str());
        match &self.group {
            Some(g) => {
                s.append(" (group ");
                s.append(g.as_str());
                s.append(")");
            },
            None => {},
        }
        assert(s@ =~= stream_text(self@));
        s
    }
}

// --- laws ------------------------------------------------------------------------

/// **Absent and zero agree**: what a position covers, and what covers it,
/// depends only on the offsets applied. A partition a position never mentions
/// is one where nothing was applied.
pub proof fn absent_and_zero_agree(
    a: Map<PartitionId, u64>,
    b: Map<PartitionId, u64>,
    c: Map<PartitionId, u64>,
)
    requires
        forall|p: PartitionId| #[trigger] applied(a, p) == applied(b, p),
    ensures
        covers(a, c) == covers(b, c),
        covers(c, a) == covers(c, b),
        covers(a, c) <==> forall|p: PartitionId| #[trigger] applied(a, p) >= applied(c, p),
{
    assert forall|p: PartitionId|
        covers(a, c)
    implies #[trigger] applied(a, p) >= applied(c, p) by {
        if c.contains_key(p) {
            assert(applied(a, p) >= c[p]);
        }
    }
    if forall|p: PartitionId| #[trigger] applied(a, p) >= applied(c, p) {
        assert forall|p: PartitionId|
            #[trigger] c.contains_key(p)
        implies applied(a, p) >= c[p] by {
            assert(applied(a, p) >= applied(c, p));
        }
    }
    assert forall|p: PartitionId| covers(a, c) && #[trigger] c.contains_key(p) implies applied(b, p)
        >= c[p] by {
        assert(applied(a, p) == applied(b, p));
    }
    assert forall|p: PartitionId| covers(b, c) && #[trigger] c.contains_key(p) implies applied(a, p)
        >= c[p] by {
        assert(applied(a, p) == applied(b, p));
    }
    assert forall|p: PartitionId| covers(c, a) && #[trigger] b.contains_key(p) implies applied(c, p)
        >= b[p] by {
        assert(applied(a, p) == applied(b, p));
        if a.contains_key(p) {
            assert(applied(c, p) >= a[p]);
        }
    }
    assert forall|p: PartitionId| covers(c, b) && #[trigger] a.contains_key(p) implies applied(c, p)
        >= a[p] by {
        assert(applied(a, p) == applied(b, p));
        if b.contains_key(p) {
            assert(applied(c, p) >= b[p]);
        }
    }
}

/// **Domination is a partial order**: reflexive, transitive, and two positions
/// that cover each other have applied the same.
pub proof fn domination_is_an_order(
    a: Map<PartitionId, u64>,
    b: Map<PartitionId, u64>,
    c: Map<PartitionId, u64>,
)
    ensures
        covers(a, a),
        covers(a, b) && covers(b, c) ==> covers(a, c),
        covers(a, b) && covers(b, a) ==> forall|p: PartitionId| #[trigger]
            applied(a, p) == applied(b, p),
{
    absent_and_zero_agree(a, a, b);
    absent_and_zero_agree(b, b, c);
    absent_and_zero_agree(b, b, a);
    if covers(a, b) && covers(b, c) {
        assert forall|p: PartitionId|
            #[trigger] c.contains_key(p)
        implies applied(a, p) >= c[p] by {
            assert(applied(b, p) >= c[p]);
            assert(applied(a, p) >= applied(b, p));
        }
    }
    if covers(a, b) && covers(b, a) {
        assert forall|p: PartitionId| #[trigger] applied(a, p) == applied(b, p) by {
            assert(applied(a, p) >= applied(b, p));
            assert(applied(b, p) >= applied(a, p));
        }
    }
}

/// **Merging is the least position that covers both.**
pub proof fn merging_is_the_least_cover(
    a: Map<PartitionId, u64>,
    b: Map<PartitionId, u64>,
    c: Map<PartitionId, u64>,
)
    ensures
        covers(joined(a, b), a),
        covers(joined(a, b), b),
        covers(c, a) && covers(c, b) ==> covers(c, joined(a, b)),
        joined(a, b) == joined(b, a),
        forall|p: PartitionId| #[trigger]
            applied(joined(a, b), p) == larger(applied(a, p), applied(b, p)),
{
    let j = joined(a, b);
    assert forall|p: PartitionId| #[trigger] applied(j, p) == larger(
        applied(a, p),
        applied(b, p),
    ) by {}
    assert forall|p: PartitionId| #[trigger] a.contains_key(p) implies applied(j, p) >= a[p] by {}
    assert forall|p: PartitionId| #[trigger] b.contains_key(p) implies applied(j, p) >= b[p] by {}
    if covers(c, a) && covers(c, b) {
        assert forall|p: PartitionId|
            #[trigger] j.contains_key(p)
        implies applied(c, p) >= j[p] by {
            if a.contains_key(p) {
                assert(applied(c, p) >= a[p]);
            }
            if b.contains_key(p) {
                assert(applied(c, p) >= b[p]);
            }
        }
    }
    assert(j =~= joined(b, a));
}

/// **A partition never walks backwards**: advancing covers where it was, and
/// the partition stands at the larger offset.
pub proof fn advancing_never_walks_backwards(m: Map<PartitionId, u64>, p: PartitionId, offset: u64)
    ensures
        covers(advanced(m, p, offset), m),
        applied(advanced(m, p, offset), p) == larger(applied(m, p), offset),
        forall|q: PartitionId|
            q != p ==> #[trigger] applied(advanced(m, p, offset), q) == applied(m, q),
{
    let n = advanced(m, p, offset);
    assert forall|q: PartitionId| #[trigger] m.contains_key(q) implies applied(n, q) >= m[q] by {}
}

/// **A position holds the highest offset of each partition**: advancing leaves
/// a partition at the larger of where it was and the offset, and moves no
/// other; merging does so for every partition of either.
pub proof fn a_position_holds_the_highest_offset(
    m: Map<PartitionId, u64>,
    other: Map<PartitionId, u64>,
    p: PartitionId,
    offset: u64,
    q: PartitionId,
)
    ensures
        applied(m, q) == if m.contains_key(q) {
            m[q]
        } else {
            0
        },
        advanced(m, p, offset).contains_key(p),
        advanced(m, p, offset)[p] >= offset,
        m.contains_key(p) ==> advanced(m, p, offset)[p] >= m[p],
        advanced(m, p, offset)[p] == offset || (m.contains_key(p) && advanced(m, p, offset)[p]
            == m[p]),
        q != p ==> (advanced(m, p, offset).contains_key(q) <==> m.contains_key(q)),
        q != p && m.contains_key(q) ==> advanced(m, p, offset)[q] == m[q],
        joined(m, other).contains_key(q) <==> m.contains_key(q) || other.contains_key(q),
        m.contains_key(q) ==> joined(m, other)[q] >= m[q],
        other.contains_key(q) ==> joined(m, other)[q] >= other[q],
        joined(m, other).contains_key(q) ==> {
            ||| m.contains_key(q) && joined(m, other)[q] == m[q]
            ||| other.contains_key(q) && joined(m, other)[q] == other[q]
        },
{
}

/// **Dominance is partition by partition**: one position covers another where
/// each partition that the other stands past zero in stands at least as far.
pub proof fn dominance_is_per_partition(a: Map<PartitionId, u64>, b: Map<PartitionId, u64>)
    ensures
        covers(a, b) <==> forall|p: PartitionId| #[trigger]
            b.contains_key(p) && b[p] > 0 ==> a.contains_key(p) && a[p] >= b[p],
{
    if covers(a, b) {
        assert forall|p: PartitionId| #[trigger] b.contains_key(p) && b[p] > 0 implies a.contains_key(
            p,
        ) && a[p] >= b[p] by {
            assert(applied(a, p) >= b[p]);
        }
    } else {
        let p = choose|p: PartitionId| #[trigger] b.contains_key(p) && !(applied(a, p) >= b[p]);
        assert(b.contains_key(p) && b[p] > 0 && !(a.contains_key(p) && a[p] >= b[p]));
    }
}

/// **Entries give the highest offset listed for each partition**, and no
/// partition that none of them lists.
pub proof fn entries_give_the_highest_offsets(entries: Seq<(PartitionId, u64)>, p: PartitionId)
    ensures
        ({
            let m = all_advanced(Map::empty(), entries);
            &&& m.contains_key(p) <==> exists|i: int|
                0 <= i < entries.len() && (#[trigger] entries[i]).0 == p
            &&& forall|i: int|
                0 <= i < entries.len() && (#[trigger] entries[i]).0 == p ==> m[p] >= entries[i].1
            &&& m.contains_key(p) ==> exists|i: int|
                0 <= i < entries.len() && #[trigger] entries[i] == (p, m[p])
        }),
    decreases entries.len(),
{
    if entries.len() > 0 {
        let front = entries.drop_last();
        let was = all_advanced(Map::empty(), front);
        let m = all_advanced(Map::empty(), entries);
        entries_give_the_highest_offsets(front, p);
        let n = entries.len() - 1;
        if was.contains_key(p) {
            let i = choose|i: int| 0 <= i < front.len() && #[trigger] front[i] == (p, was[p]);
            assert(entries[i] == (p, was[p]));
        }
        assert forall|i: int| 0 <= i < entries.len() && (#[trigger] entries[i]).0 == p implies m[p]
            >= entries[i].1 by {
            if i < n {
                assert(front[i] == entries[i]);
            }
        }
        if m.contains_key(p) && entries[n].0 == p {
            assert(entries[n] == (p, entries[n].1));
        }
        if entries[n].0 != p && m.contains_key(p) {
            assert(was.contains_key(p));
        }
        if exists|i: int| 0 <= i < entries.len() && (#[trigger] entries[i]).0 == p {
            let i = choose|i: int| 0 <= i < entries.len() && (#[trigger] entries[i]).0 == p;
            if i < n {
                assert(front[i].0 == p);
            }
        }
    }
}

/// **A scalar says the same as the position it stands for**: nothing applied is
/// zero, partition 0 alone is its offset, and any other position has none.
pub proof fn a_scalar_is_the_same_position(m: Map<PartitionId, u64>, n: u64)
    requires
        m.dom().finite(),
    ensures
        scalar_of(m) == Some(n) <==> {
            ||| n == 0 && m == Map::<PartitionId, u64>::empty()
            ||| m == Map::<PartitionId, u64>::empty().insert(0, n)
        },
        scalar_of(m) is None <==> exists|p: PartitionId| #[trigger] m.contains_key(p) && p != 0,
{
    let one = Map::<PartitionId, u64>::empty().insert(0, n);
    assert(Map::<PartitionId, u64>::empty().dom() =~= Set::empty());
    assert(one.dom() =~= Set::empty().insert(0u32));
    if m.dom().len() == 0 {
        assert(m.dom() =~= Set::empty());
        assert(m =~= Map::empty());
    } else if m.dom().len() == 1 && m.contains_key(0) {
        assert(m.dom() =~= Set::empty().insert(0u32)) by {
            vstd::set_lib::lemma_subset_equality(Set::empty().insert(0u32), m.dom());
        }
        assert(m =~= Map::<PartitionId, u64>::empty().insert(0, m[0]));
        if m == one {
            assert(m[0] == one[0]);
        }
    } else {
        let rest = m.dom().remove(0);
        assert(rest.len() > 0);
        if forall|p: PartitionId| !rest.contains(p) {
            assert(rest =~= Set::empty());
        }
        let p = choose|p: PartitionId| rest.contains(p);
        assert(m.contains_key(p) && p != 0);
        assert(!one.contains_key(p));
    }
}

/// **Two ids are one stream where source and name agree**, whatever the groups.
pub proof fn groups_do_not_tell_streams_apart(
    a: StreamIdView,
    b: StreamIdView,
    group: Option<Seq<char>>,
)
    ensures
        one_stream(a, StreamIdView { group, ..a }),
        one_stream(a, b) == one_stream(b, a),
        one_stream(a, b) ==> a == (StreamIdView { group: a.group, ..b }),
        a.name != b.name ==> !one_stream(a, b),
        a.source != b.source ==> !one_stream(a, b),
        one_stream(a, b) == one_stream(a, StreamIdView { group, ..b }),
{
}

/// **A position is written entry by entry**: `p:o` for one, and two lists after
/// each other with a comma between.
pub proof fn positions_are_written_entry_by_entry(
    p: PartitionId,
    o: u64,
    a: Seq<(PartitionId, u64)>,
    b: Seq<(PartitionId, u64)>,
)
    requires
        a.len() > 0,
        b.len() > 0,
    ensures
        entries_text(seq![(p, o)]) == decimal(p as nat) + ":"@ + decimal(o as nat),
        entries_text(a + b) == entries_text(a) + ","@ + entries_text(b),
    decreases b.len(),
{
    let one = seq![(p, o)];
    assert(one.drop_last() =~= Seq::empty());
    assert(entries_text(Seq::empty()) =~= Seq::empty());
    assert(entries_text(one) =~= decimal(p as nat) + ":"@ + decimal(o as nat));
    let front = b.drop_last();
    assert((a + b).drop_last() =~= a + front);
    assert((a + b).last() == b.last());
    let tail = decimal(b.last().0 as nat) + ":"@ + decimal(b.last().1 as nat);
    if b.len() == 1 {
        assert(a + front =~= a);
        assert(entries_text(front) =~= Seq::empty());
        assert(entries_text(b) =~= tail);
        assert(entries_text(a + b) =~= entries_text(a) + ","@ + tail);
    } else {
        positions_are_written_entry_by_entry(p, o, a, front);
        assert(entries_text(b) =~= entries_text(front) + ","@ + tail);
        assert(entries_text(a + b) =~= entries_text(a + front) + ","@ + tail);
        assert(entries_text(a + b) =~= entries_text(a) + ","@ + (entries_text(front) + ","@ + tail));
    }
}

/// **A position answers for its partitions**: the offset recorded, or zero, and it
/// dominates another where it is nowhere behind it.
pub proof fn a_position_answers_for_its_partitions(
    a: StreamPosition,
    b: StreamPosition,
    p: PartitionId,
    offset: u64,
    over: bool,
    scalar: Option<u64>,
)
    requires
        a@.dom().finite(),
        call_ensures(StreamPosition::get, (&a, p), offset),
        call_ensures(StreamPosition::dominates, (&a, &b), over),
        call_ensures(StreamPosition::as_scalar, (&a,), scalar),
    ensures
        a@.contains_key(p) ==> offset == a@[p],
        !a@.contains_key(p) ==> offset == 0,
        over && b@.contains_key(p) ==> b@[p] <= offset,
        !over ==> exists|q: PartitionId| #[trigger]
            b@.contains_key(q) && b@[q] > applied(a@, q),
        scalar matches Some(n) ==> applied(a@, 0) == n && (p != 0 ==> offset == 0),
{
    if let Some(n) = scalar {
        a_scalar_is_the_same_position(a@, n);
    }
}

/// **Two ids name one stream whatever their groups.**
pub proof fn one_stream_whatever_the_group(a: StreamId, b: StreamId, same: bool)
    requires
        call_ensures(StreamId::same_stream, (&a, &b), same),
    ensures
        same <==> a.source@ == b.source@ && a.name@ == b.name@,
{
}

/// **A position moves only forward**: advancing raises the one partition to the
/// offset given, or leaves it where it was further, and touches no other; merging
/// takes the further of both in each.
pub proof fn a_position_moves_only_forward(
    advanced_one: &mut StreamPosition,
    merged: &mut StreamPosition,
    other: StreamPosition,
    partition: PartitionId,
    offset: u64,
    p: PartitionId,
)
    requires
        call_ensures(StreamPosition::advance, (advanced_one, partition, offset), ()),
        call_ensures(StreamPosition::merge, (merged, &other), ()),
    ensures
        ({
            let before = applied(old(advanced_one)@, p);
            let after = applied(final(advanced_one)@, p);
            &&& p != partition ==> after == before
            &&& p == partition ==> after >= before && after >= offset && (after == before || after
                == offset)
        }),
        ({
            let a = applied(old(merged)@, p);
            let b = applied(other@, p);
            let after = applied(final(merged)@, p);
            &&& after >= a && after >= b
            &&& after == a || after == b
        }),
{
}

/// **A stream is named by its source and its name**, and by its group where it has
/// one; a position that holds nothing is said to, and others list each partition.
pub proof fn a_stream_is_named(id: StreamId, s: String, position: StreamPosition, t: String)
    requires
        call_ensures(StreamId::to_text, (&id,), s),
        call_ensures(StreamPosition::to_text, (&position,), t),
    ensures
        id.group is None ==> s@ == id.source@ + "://"@ + id.name@,
        id.group matches Some(g) ==> s@ == id.source@ + "://"@ + id.name@ + " (group "@ + g@
            + ")"@,
        partitions_of(position@).len() == 0 ==> t@ == "(nothing)"@,
        partitions_of(position@).len() > 0 ==> t@ == entries_text(partitions_of(position@)),
{
    let a = id.source@ + "://"@ + id.name@;
    match id.group {
        None => {
            assert(a + Seq::<char>::empty() =~= a);
        },
        Some(g) => {
            assert(s@ =~= a + " (group "@ + g@ + ")"@);
        },
    }
}

} // verus!
