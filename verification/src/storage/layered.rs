//! A routing base assembled from a **base layer plus a chain of deltas**, all
//! mapped, presented as one [`RoutingBase`].
//!
//! # The property that makes lookups cheap: layer keys are disjoint
//!
//! Every layer is produced by resolving through everything beneath it, so a
//! layer's keys are always *composed roots of the layers below*: nodes those
//! layers store no parent for. Two consequences:
//!
//! 1. At most one layer holds a parent for a given node, so the first hit while
//!    scanning layers is the only hit; there is nothing to reconcile.
//! 2. Following that parent can only ever continue in a *newer* layer. So a
//!    resolution walks each layer at most once.

use std::ops::Range;
use std::sync::Arc;
use vstd::prelude::*;

use super::base::{table_links, PuffinBase};
use crate::graph::base::{BaseStats, PairCursor, RoutingBase};
use crate::graph::sorting::{scopes_in_order, scopes_in_order_is, sort_scopes};
use crate::graph::types::{NodeId, ScopeId, ScopeList};

verus! {

/// Why layers do not make a stack.
#[derive(Debug, Clone, Copy, PartialEq, Eq, Structural)]
pub enum StackError {
    /// A layered base needs at least a base.
    NoLayers,
    /// The range does not name layers of the stack.
    BadRange,
}

/// Where `x` leads through `maps` from `from` on: each layer is asked once, in
/// order, and a node that is recorded as its own parent ends the walk.
pub open spec fn climb(maps: Seq<Map<NodeId, NodeId>>, from: int, x: NodeId) -> NodeId
    decreases maps.len() - from,
{
    if from < 0 || from >= maps.len() {
        x
    } else if maps[from].contains_key(x) {
        if maps[from][x] == x {
            x
        } else {
            climb(maps, from + 1, maps[from][x])
        }
    } else {
        climb(maps, from + 1, x)
    }
}

/// Every node that leads elsewhere, with where it leads.
pub open spec fn climbed(maps: Seq<Map<NodeId, NodeId>>) -> Map<NodeId, NodeId> {
    Map::new(|x: NodeId| climb(maps, 0, x) != x, |x: NodeId| climb(maps, 0, x))
}

/// The links that the tables answer.
pub open spec fn links_of(tables: Seq<Seq<(NodeId, NodeId)>>) -> Seq<Map<NodeId, NodeId>> {
    tables.map_values(|t: Seq<(NodeId, NodeId)>| table_links(t))
}

// --- merging sorted tables ---------------------------------------------------------------------

/// Pairs still to come in the first `n` tables.
pub open spec fn remaining(
    tables: Seq<Seq<(NodeId, NodeId)>>,
    positions: Seq<usize>,
    n: nat,
) -> nat
    decreases n,
{
    if n == 0 {
        0
    } else {
        let i = n - 1;
        remaining(tables, positions, i as nat) + if positions[i] < tables[i].len() {
            (tables[i].len() - positions[i]) as nat
        } else {
            0
        }
    }
}

/// Which of the first `n` tables has the least next key; the oldest of those
/// that have it.
pub open spec fn least_head(
    tables: Seq<Seq<(NodeId, NodeId)>>,
    positions: Seq<usize>,
    n: nat,
) -> Option<int>
    decreases n,
{
    if n == 0 {
        None
    } else {
        let i = n - 1;
        let best = least_head(tables, positions, i as nat);
        if positions[i] >= tables[i].len() {
            best
        } else {
            match best {
                None => Some(i),
                Some(b) => if tables[i][positions[i] as int].0 < tables[b][positions[b] as int].0 {
                    Some(i)
                } else {
                    best
                },
            }
        }
    }
}

/// The merge of `tables` from `positions` on: always the least next key, each
/// with the root that its recorded parent leads to, and nothing for a node
/// that leads to itself.
pub open spec fn merged(
    tables: Seq<Seq<(NodeId, NodeId)>>,
    positions: Seq<usize>,
    left: nat,
) -> Seq<(NodeId, NodeId)>
    decreases left,
{
    match least_head(tables, positions, tables.len()) {
        None => Seq::empty(),
        Some(i) => if left == 0 {
            Seq::empty()
        } else {
            let (k, v) = tables[i][positions[i] as int];
            let root = climb(links_of(tables), 0, v);
            let rest = merged(
                tables,
                positions.update(i, (positions[i] + 1) as usize),
                (left - 1) as nat,
            );
            if root != k {
                seq![(k, root)] + rest
            } else {
                rest
            }
        },
    }
}

/// What is left of the merge at a cursor.
pub open spec fn merge_rest(tables: Seq<Seq<(NodeId, NodeId)>>, c: PairCursor) -> Seq<
    (NodeId, NodeId),
> {
    if c.positions@.len() == tables.len() {
        merged(tables, c.positions@, remaining(tables, c.positions@, tables.len()))
    } else {
        Seq::empty()
    }
}

/// The whole merge.
pub open spec fn merge_all(tables: Seq<Seq<(NodeId, NodeId)>>) -> Seq<(NodeId, NodeId)> {
    let start = Seq::new(tables.len(), |i: int| 0usize);
    merged(tables, start, remaining(tables, start, tables.len()))
}

proof fn least_head_is(tables: Seq<Seq<(NodeId, NodeId)>>, positions: Seq<usize>, n: nat)
    requires
        n <= tables.len(),
        positions.len() == tables.len(),
    ensures
        least_head(tables, positions, n) matches Some(i) ==> 0 <= i < n && positions[i]
            < tables[i].len(),
        least_head(tables, positions, n) is None ==> remaining(tables, positions, n) == 0,
        least_head(tables, positions, n) is Some ==> remaining(tables, positions, n) > 0,
    decreases n,
{
    if n > 0 {
        least_head_is(tables, positions, (n - 1) as nat);
    }
}

proof fn remaining_drops(
    tables: Seq<Seq<(NodeId, NodeId)>>,
    positions: Seq<usize>,
    i: int,
    n: nat,
)
    requires
        n <= tables.len(),
        positions.len() == tables.len(),
        0 <= i < tables.len(),
        positions[i] < tables[i].len(),
        tables[i].len() <= usize::MAX,
    ensures
        remaining(tables, positions.update(i, (positions[i] + 1) as usize), n) == if i < n {
            remaining(tables, positions, n) - 1
        } else {
            remaining(tables, positions, n) as int
        },
    decreases n,
{
    if n > 0 {
        remaining_drops(tables, positions, i, (n - 1) as nat);
    }
}

// --- the stack -----------------------------------------------------------------------------------

/// Base layer plus deltas, oldest first.
#[derive(Debug)]
pub struct LayeredBase {
    /// `layers[0]` is the base; the rest are deltas in commit order. Never
    /// empty.
    layers: Vec<Arc<PuffinBase>>,
}

impl LayeredBase {
    /// The layers, oldest first.
    pub closed spec fn stack(&self) -> Seq<Arc<PuffinBase>> {
        self.layers@
    }

    /// The tables of one level, oldest first.
    pub open spec fn tables(&self, level: Option<ScopeId>) -> Seq<Seq<(NodeId, NodeId)>> {
        self.stack().map_values(
            |l: Arc<PuffinBase>|
                match level {
                    None => l.shared_pairs(),
                    Some(scope) => l.overlay_pairs(scope),
                },
        )
    }

    /// What one level resolves to.
    pub open spec fn links_at(&self, level: Option<ScopeId>) -> Map<NodeId, NodeId> {
        climbed(links_of(self.tables(level)))
    }

    /// The scopes that some layer has an overlay for.
    pub open spec fn all_scopes(&self) -> Set<ScopeId> {
        Set::new(|s: ScopeId| exists|i: int| #[trigger] self.layer_has(i, s))
    }

    pub open spec fn layer_has(&self, i: int, s: ScopeId) -> bool {
        0 <= i < self.stack().len() && self.stack()[i].scope_list().contains(s)
    }

    /// Some layer registers `s` on `root`.
    pub open spec fn layer_registers(&self, i: int, root: NodeId, s: ScopeId) -> bool {
        0 <= i < self.stack().len() && self.stack()[i].registered(root).contains(s)
    }

    /// A single base layer with no deltas.
    pub fn new(base: Arc<PuffinBase>) -> (l: LayeredBase)
        requires
            base.wf(),
        ensures
            l.wf(),
            l.stack() == seq![base],
    {
        let mut layers: Vec<Arc<PuffinBase>> = Vec::new();
        layers.push(base);
        let l = LayeredBase { layers };
        assert(l.stack() =~= seq![base]);
        l
    }

    /// Base plus deltas in commit order.
    pub fn from_layers(layers: Vec<Arc<PuffinBase>>) -> (r: Result<LayeredBase, StackError>)
        requires
            forall|i: int| 0 <= i < layers@.len() ==> (#[trigger] layers@[i]).wf(),
        ensures
            match r {
                Ok(l) => layers@.len() > 0 && l.wf() && l.stack() == layers@,
                Err(e) => layers@.len() == 0 && e == StackError::NoLayers,
            },
    {
        if layers.len() == 0 {
            return Err(StackError::NoLayers);
        }
        Ok(LayeredBase { layers })
    }

    /// Appends the layers from `from` up to `to`.
    fn copy_layers(&self, from: usize, to: usize, out: &mut Vec<Arc<PuffinBase>>)
        requires
            from <= to <= self.stack().len(),
        ensures
            final(out)@ == old(out)@ + self.stack().subrange(from as int, to as int),
    {
        let ghost before = out@;
        let mut i: usize = from;
        assert(out@ =~= before + self.stack().subrange(from as int, from as int));
        while i < to
            invariant
                from <= i <= to <= self.stack().len(),
                out@ == before + self.stack().subrange(from as int, i as int),
            decreases to - i,
        {
            out.push(self.layers[i].clone());
            i += 1;
            assert(out@ =~= before + self.stack().subrange(from as int, i as int));
        }
    }

    /// This base with `delta` appended as the newest layer. The existing
    /// mappings are shared, nothing is copied or rewritten.
    pub fn pushed(&self, delta: Arc<PuffinBase>) -> (l: LayeredBase)
        requires
            self.wf(),
            delta.wf(),
        ensures
            l.wf(),
            l.stack() == self.stack().push(delta),
    {
        let mut layers: Vec<Arc<PuffinBase>> = Vec::new();
        self.copy_layers(0, self.layers.len(), &mut layers);
        assert(layers@ =~= self.stack());
        layers.push(delta);
        LayeredBase { layers }
    }

    /// Deltas layered on the base.
    pub fn delta_count(&self) -> (n: usize)
        requires
            self.wf(),
        ensures
            n == self.stack().len() - 1,
    {
        self.layers.len() - 1
    }

    /// The layers in `range` as a stack of their own: what a tiered merge
    /// reads.
    pub fn slice(&self, range: Range<usize>) -> (r: Result<LayeredBase, StackError>)
        requires
            self.wf(),
            range.start <= range.end,
        ensures
            match r {
                Ok(l) => range.start < range.end <= self.stack().len() && l.wf() && l.stack()
                    == self.stack().subrange(range.start as int, range.end as int),
                Err(e) => if range.end > self.stack().len() {
                    e == StackError::BadRange
                } else {
                    range.start == range.end && e == StackError::NoLayers
                },
            },
    {
        if range.end > self.layers.len() {
            return Err(StackError::BadRange);
        }
        let mut layers: Vec<Arc<PuffinBase>> = Vec::new();
        self.copy_layers(range.start, range.end, &mut layers);
        assert(layers@ =~= self.stack().subrange(range.start as int, range.end as int));
        LayeredBase::from_layers(layers)
    }

    /// This stack with `range` replaced by the single layer that merged it.
    pub fn spliced(&self, range: Range<usize>, merged: Arc<PuffinBase>) -> (r: Result<
        LayeredBase,
        StackError,
    >)
        requires
            self.wf(),
            merged.wf(),
        ensures
            match r {
                Ok(l) => range.start < range.end <= self.stack().len() && l.wf() && l.stack()
                    == self.stack().take(range.start as int).push(merged) + self.stack().skip(
                    range.end as int,
                ),
                Err(e) => !(range.start < range.end <= self.stack().len()) && e
                    == StackError::BadRange,
            },
    {
        if range.start >= range.end || range.end > self.layers.len() {
            return Err(StackError::BadRange);
        }
        let mut layers: Vec<Arc<PuffinBase>> = Vec::new();
        self.copy_layers(0, range.start, &mut layers);
        layers.push(merged);
        self.copy_layers(range.end, self.layers.len(), &mut layers);
        assert(layers@ =~= self.stack().take(range.start as int).push(merged) + self.stack().skip(
            range.end as int,
        ));
        LayeredBase::from_layers(layers)
    }

    /// How many layers there are.
    pub fn layers(&self) -> (n: usize)
        ensures
            n == self.stack().len(),
    {
        self.layers.len()
    }

    /// The `i`th layer, oldest first.
    pub fn layer(&self, i: usize) -> (l: &PuffinBase)
        requires
            i < self.stack().len(),
        ensures
            *l == *self.stack()[i as int],
    {
        &self.layers[i]
    }

    fn probe(&self, i: usize, level: Option<ScopeId>, x: NodeId) -> (r: Option<NodeId>)
        requires
            self.wf(),
            i < self.stack().len(),
        ensures
            ({
                let links = links_of(self.tables(level))[i as int];
                r == if links.contains_key(x) {
                    Some(links[x])
                } else {
                    None
                }
            }),
    {
        assert(self.stack()[i as int].wf());
        match level {
            None => self.layers[i].shared_parent(x),
            Some(scope) => self.layers[i].overlay_parent(scope, x),
        }
    }

    /// Where `x` leads at one level. Moves through the layers forward only,
    /// which is sound because a value found in layer `i` was a composed root of
    /// layers `0..=i` and so cannot have a parent in any of them.
    pub fn resolve(&self, level: Option<ScopeId>, x: NodeId) -> (r: NodeId)
        requires
            self.wf(),
        ensures
            r == climb(links_of(self.tables(level)), 0, x),
    {
        let ghost maps = links_of(self.tables(level));
        let mut cur: NodeId = x;
        let mut i: usize = 0;
        while i < self.layers.len()
            invariant
                i <= self.layers.len(),
                self.wf(),
                maps == links_of(self.tables(level)),
                maps.len() == self.layers@.len(),
                climb(maps, i as int, cur) == climb(maps, 0, x),
            decreases self.layers.len() - i,
        {
            match self.probe(i, level, cur) {
                None => {},
                Some(parent) => {
                    if parent == cur {
                        return cur;
                    }
                    cur = parent;
                },
            }
            i += 1;
        }
        cur
    }

    fn table_len(&self, i: usize, level: Option<ScopeId>) -> (n: usize)
        requires
            self.wf(),
            i < self.stack().len(),
        ensures
            n == self.tables(level)[i as int].len(),
    {
        assert(self.stack()[i as int].wf());
        match level {
            None => self.layers[i].shared_len(),
            Some(scope) => self.layers[i].overlay_len(scope),
        }
    }

    fn table_pair(&self, i: usize, level: Option<ScopeId>, at: usize) -> (p: (NodeId, NodeId))
        requires
            self.wf(),
            i < self.stack().len(),
            at < self.tables(level)[i as int].len(),
        ensures
            p == self.tables(level)[i as int][at as int],
    {
        assert(self.stack()[i as int].wf());
        match level {
            None => self.layers[i].shared_pair_at(at),
            Some(scope) => self.layers[i].overlay_pair_at(scope, at),
        }
    }

    /// Appends at most `limit` of the nodes that the layers list directly below
    /// `parent`.
    fn children(
        &self,
        level: Option<ScopeId>,
        parent: NodeId,
        limit: usize,
        out: &mut Vec<NodeId>,
    )
        requires
            self.wf(),
        ensures
            final(out)@ == old(out)@ + some_over(self.stack(), level, parent, limit as nat),
            final(out)@.len() <= old(out)@.len() + limit,
    {
        let ghost stack = self.stack();
        let ghost before = out@;
        let start: usize = out.len();
        let mut i: usize = 0;
        assert(out@ =~= before + some_over(stack.take(0), level, parent, limit as nat));
        while i < self.layers.len()
            invariant
                i <= self.layers.len(),
                self.wf(),
                stack == self.stack(),
                before.len() == start,
                out@ == before + some_over(stack.take(i as int), level, parent, limit as nat),
                out@.len() <= start + limit,
            decreases self.layers.len() - i,
        {
            proof {
                assert(stack[i as int].wf());
                assert(stack.take(i + 1).drop_last() =~= stack.take(i as int));
                assert(stack.take(i + 1).last() == stack[i as int]);
            }
            let ghost listed = some_over(stack.take(i as int), level, parent, limit as nat);
            let taken: usize = out.len() - start;
            if taken < limit {
                match level {
                    None => self.layers[i].shared_children(parent, limit - taken, out),
                    Some(scope) => self.layers[i].overlay_children(
                        scope,
                        parent,
                        limit - taken,
                        out,
                    ),
                }
                assert(out@ =~= before + (listed + layer_some(
                    &*stack[i as int],
                    level,
                    parent,
                    (limit - taken) as nat,
                )));
            }
            i += 1;
        }
        assert(stack.take(i as int) =~= stack);
    }

    /// A cursor at the first pair of every layer.
    fn merge_start(&self) -> (c: PairCursor)
        requires
            self.wf(),
        ensures
            forall|level: Option<ScopeId>| #[trigger]
                merge_rest(self.tables(level), c) == merge_all(self.tables(level)),
    {
        let mut positions: Vec<usize> = Vec::new();
        let mut i: usize = 0;
        while i < self.layers.len()
            invariant
                i <= self.layers.len(),
                positions@.len() == i,
                forall|j: int| 0 <= j < i ==> #[trigger] positions@[j] == 0,
            decreases self.layers.len() - i,
        {
            positions.push(0);
            i += 1;
        }
        let c = PairCursor { positions };
        assert forall|level: Option<ScopeId>| #[trigger]
            merge_rest(self.tables(level), c) == merge_all(self.tables(level)) by {
            let tables = self.tables(level);
            assert(c.positions@ =~= Seq::new(tables.len(), |i: int| 0usize));
        }
        c
    }

    /// Which layer has the least next key.
    fn pick(&self, level: Option<ScopeId>, positions: &Vec<usize>) -> (r: Option<usize>)
        requires
            self.wf(),
            positions@.len() == self.stack().len(),
        ensures
            match r {
                Some(i) => least_head(self.tables(level), positions@, self.stack().len()) == Some(
                    i as int,
                ) && i < self.stack().len() && positions@[i as int] < self.tables(
                    level,
                )[i as int].len(),
                None => least_head(self.tables(level), positions@, self.stack().len()) is None,
            },
    {
        let ghost tables = self.tables(level);
        let mut best: Option<usize> = None;
        let mut best_key: NodeId = 0;
        let mut i: usize = 0;
        while i < self.layers.len()
            invariant
                i <= self.layers.len(),
                self.wf(),
                positions@.len() == self.stack().len(),
                self.stack().len() == self.layers@.len(),
                tables == self.tables(level),
                tables.len() == self.layers@.len(),
                match best {
                    Some(b) => least_head(tables, positions@, i as nat) == Some(b as int) && b < i
                        && positions@[b as int] < tables[b as int].len() && best_key
                        == tables[b as int][positions@[b as int] as int].0,
                    None => least_head(tables, positions@, i as nat) is None,
                },
            decreases self.layers.len() - i,
        {
            let at: usize = positions[i];
            if at < self.table_len(i, level) {
                let key: NodeId = self.table_pair(i, level, at).0;
                let better: bool = match best {
                    None => true,
                    Some(_) => key < best_key,
                };
                if better {
                    best = Some(i);
                    best_key = key;
                }
            }
            i += 1;
        }
        best
    }

    /// The next pair of the merge. A k-way merge over cursors, so heap stays
    /// O(layers) no matter how much state is being read.
    fn merge_next(&self, level: Option<ScopeId>, c: &mut PairCursor) -> (r: Option<
        (NodeId, NodeId),
    >)
        requires
            self.wf(),
        ensures
            ({
                let rest = merge_rest(self.tables(level), *old(c));
                &&& (r is None) == (rest.len() == 0)
                &&& r matches Some(p) ==> p == rest.first() && merge_rest(
                    self.tables(level),
                    *final(c),
                ) == rest.drop_first()
            }),
    {
        let ghost tables = self.tables(level);
        let ghost whole = merge_rest(tables, *c);
        if c.positions.len() != self.layers.len() {
            return None;
        }
        loop
            invariant
                self.wf(),
                tables == self.tables(level),
                tables.len() == self.layers@.len(),
                c.positions@.len() == tables.len(),
                merge_rest(tables, *c) == whole,
                whole == merge_rest(tables, *old(c)),
            decreases remaining(tables, c.positions@, tables.len()),
        {
            let ghost positions = c.positions@;
            proof {
                least_head_is(tables, positions, tables.len());
            }
            match self.pick(level, &c.positions) {
                None => {
                    return None;
                },
                Some(i) => {
                    let at: usize = c.positions[i];
                    let (k, v): (NodeId, NodeId) = self.table_pair(i, level, at);
                    let n: usize = self.table_len(i, level);
                    c.positions.set(i, at + 1);
                    proof {
                        remaining_drops(tables, positions, i as int, tables.len());
                        assert(c.positions@ == positions.update(i as int, (at + 1) as usize));
                    }
                    let root: NodeId = self.resolve(level, v);
                    if root != k {
                        proof {
                            let rest = merge_rest(tables, *c);
                            assert(whole == seq![(k, root)] + rest);
                            assert(whole.drop_first() =~= rest);
                        }
                        return Some((k, root));
                    }
                },
            }
        }
    }
}

/// What one layer lists directly below `parent`.
pub open spec fn layer_kids(l: &PuffinBase, level: Option<ScopeId>, parent: NodeId) -> Seq<NodeId> {
    match level {
        None => l.shared_kids(parent),
        Some(scope) => l.overlay_kids(scope, parent),
    }
}

/// What one layer answers to a query for at most `limit` of them.
pub open spec fn layer_some(
    l: &PuffinBase,
    level: Option<ScopeId>,
    parent: NodeId,
    limit: nat,
) -> Seq<NodeId> {
    match level {
        None => l.shared_some(parent, limit),
        Some(scope) => l.overlay_some(scope, parent, limit),
    }
}

/// What the layers list directly below `parent`, oldest first.
pub open spec fn kids_over(
    stack: Seq<Arc<PuffinBase>>,
    level: Option<ScopeId>,
    parent: NodeId,
) -> Seq<NodeId>
    decreases stack.len(),
{
    if stack.len() == 0 {
        Seq::empty()
    } else {
        kids_over(stack.drop_last(), level, parent) + layer_kids(&*stack.last(), level, parent)
    }
}

/// What they answer to a query for at most `limit` of them: each layer is
/// asked for what the older ones left to list.
pub open spec fn some_over(
    stack: Seq<Arc<PuffinBase>>,
    level: Option<ScopeId>,
    parent: NodeId,
    limit: nat,
) -> Seq<NodeId>
    decreases stack.len(),
{
    if stack.len() == 0 {
        Seq::empty()
    } else {
        let before = some_over(stack.drop_last(), level, parent, limit);
        if before.len() < limit {
            before + layer_some(&*stack.last(), level, parent, (limit - before.len()) as nat)
        } else {
            before
        }
    }
}

/// What the first `n` layers report together. Counters wrap.
pub open spec fn summed_stats(stack: Seq<Arc<PuffinBase>>, n: nat) -> BaseStats
    decreases n,
{
    if n == 0 {
        BaseStats::none()
    } else {
        let before = summed_stats(stack, (n - 1) as nat);
        let s = stack[n - 1].stats_view();
        BaseStats {
            sequence: if s.sequence > before.sequence {
                s.sequence
            } else {
                before.sequence
            },
            shared_pairs: before.shared_pairs.wrapping_add(s.shared_pairs),
            overlay_pairs: before.overlay_pairs.wrapping_add(s.overlay_pairs),
            scopes: 0,
            mapped_bytes: before.mapped_bytes.wrapping_add(s.mapped_bytes),
            index_bytes: before.index_bytes.wrapping_add(s.index_bytes),
            registry_indexed: before.registry_indexed || s.registry_indexed,
        }
    }
}

/// Whether `v` holds `x`.
fn contains(v: &Vec<ScopeId>, x: ScopeId) -> (r: bool)
    ensures
        r == v@.contains(x),
{
    let mut i: usize = 0;
    while i < v.len()
        invariant
            i <= v.len(),
            forall|j: int| 0 <= j < i ==> #[trigger] v@[j] != x,
        decreases v.len() - i,
    {
        if v[i] == x {
            assert(v@[i as int] == x);
            return true;
        }
        i += 1;
    }
    false
}

/// Appends those of `more` that `out` does not hold.
fn add_missing(out: &mut Vec<ScopeId>, more: &Vec<ScopeId>)
    requires
        old(out)@.no_duplicates(),
    ensures
        final(out)@.no_duplicates(),
        forall|s: ScopeId| #[trigger]
            final(out)@.contains(s) <==> old(out)@.contains(s) || more@.contains(s),
{
    let ghost before = out@;
    let mut i: usize = 0;
    while i < more.len()
        invariant
            i <= more.len(),
            out@.no_duplicates(),
            forall|s: ScopeId| #[trigger]
                out@.contains(s) <==> before.contains(s) || more@.take(i as int).contains(s),
        decreases more.len() - i,
    {
        let s: ScopeId = more[i];
        let ghost was = out@;
        if !contains(out, s) {
            out.push(s);
        }
        proof {
            let part = more@.take(i as int);
            let next = more@.take(i + 1);
            assert(next =~= part.push(s));
            assert forall|x: ScopeId| #[trigger]
                out@.contains(x) <==> before.contains(x) || next.contains(x) by {
                if part.contains(x) {
                    let j = part.index_of(x);
                    assert(next[j] == x);
                }
                if next.contains(x) && x != s {
                    let j = next.index_of(x);
                    assert(part[j] == x);
                }
                if x == s {
                    assert(next[i as int] == x);
                }
                if was.contains(x) {
                    let j = was.index_of(x);
                    assert(out@[j] == x);
                }
                if out@.contains(x) && !was.contains(x) {
                    let j = out@.index_of(x);
                    assert(j == was.len());
                }
                if x == s && !was.contains(s) {
                    assert(out@[was.len() as int] == s);
                }
            }
        }
        i += 1;
    }
    assert(more@.take(i as int) =~= more@);
}

impl RoutingBase for LayeredBase {
    open spec fn shared_links(&self) -> Map<NodeId, NodeId> {
        self.links_at(None)
    }

    open spec fn overlay_links(&self, scope: ScopeId) -> Map<NodeId, NodeId> {
        self.links_at(Some(scope))
    }

    /// A scope that keyed overlay state on this root in *any* layer still has
    /// to be notified when it is absorbed, so this is a union.
    open spec fn registered(&self, root: NodeId) -> Set<ScopeId> {
        Set::new(|s: ScopeId| exists|i: int| #[trigger] self.layer_registers(i, root, s))
    }

    open spec fn scope_list(&self) -> Seq<ScopeId> {
        scopes_in_order(self.all_scopes())
    }

    open spec fn shared_stream(&self) -> Seq<(NodeId, NodeId)> {
        merge_all(self.tables(None))
    }

    open spec fn overlay_stream(&self, scope: ScopeId) -> Seq<(NodeId, NodeId)> {
        merge_all(self.tables(Some(scope)))
    }

    open spec fn member_indexed(&self) -> bool {
        forall|i: int|
            0 <= i < self.stack().len() ==> (#[trigger] self.stack()[i]).member_indexed()
    }

    open spec fn shared_kids(&self, parent: NodeId) -> Seq<NodeId> {
        kids_over(self.stack(), None, parent)
    }

    open spec fn overlay_kids(&self, scope: ScopeId, parent: NodeId) -> Seq<NodeId> {
        kids_over(self.stack(), Some(scope), parent)
    }

    open spec fn shared_some(&self, parent: NodeId, limit: nat) -> Seq<NodeId> {
        some_over(self.stack(), None, parent, limit)
    }

    open spec fn overlay_some(&self, scope: ScopeId, parent: NodeId, limit: nat) -> Seq<NodeId> {
        some_over(self.stack(), Some(scope), parent, limit)
    }

    open spec fn stats_view(&self) -> BaseStats {
        BaseStats {
            scopes: self.scope_list().len() as u64,
            ..summed_stats(self.stack(), self.stack().len())
        }
    }

    open spec fn shared_rest(&self, c: PairCursor) -> Seq<(NodeId, NodeId)> {
        merge_rest(self.tables(None), c)
    }

    open spec fn overlay_rest(&self, scope: ScopeId, c: PairCursor) -> Seq<(NodeId, NodeId)> {
        merge_rest(self.tables(Some(scope)), c)
    }

    open spec fn wf(&self) -> bool {
        &&& self.stack().len() > 0
        &&& forall|i: int| 0 <= i < self.stack().len() ==> (#[trigger] self.stack()[i]).wf()
    }

    fn shared_parent(&self, node: NodeId) -> (r: Option<NodeId>) {
        let root: NodeId = self.resolve(None, node);
        if root != node {
            Some(root)
        } else {
            None
        }
    }

    fn overlay_parent(&self, scope: ScopeId, node: NodeId) -> (r: Option<NodeId>) {
        let root: NodeId = self.resolve(Some(scope), node);
        if root != node {
            Some(root)
        } else {
            None
        }
    }

    fn scopes_for_root(&self, root: NodeId) -> (r: ScopeList) {
        let mut out: Vec<ScopeId> = Vec::new();
        let mut i: usize = 0;
        while i < self.layers.len()
            invariant
                i <= self.layers.len(),
                self.wf(),
                out@.no_duplicates(),
                forall|s: ScopeId| #[trigger]
                    out@.contains(s) <==> exists|j: int|
                        j < i && #[trigger] self.layer_registers(j, root, s),
            decreases self.layers.len() - i,
        {
            assert(self.stack()[i as int].wf());
            let more: Vec<ScopeId> = self.layers[i].scopes_for_root(root).to_vec();
            let ghost was = out@;
            add_missing(&mut out, &more);
            assert forall|s: ScopeId| #[trigger] out@.contains(s) <==> exists|j: int|
                j < i + 1 && #[trigger] self.layer_registers(j, root, s) by {
                assert(more@.contains(s) <==> more@.to_set().contains(s));
                assert(more@.contains(s) <==> self.layer_registers(i as int, root, s));
                if was.contains(s) {
                    let j = choose|j: int| j < i && #[trigger] self.layer_registers(j, root, s);
                    assert(j < i + 1 && self.layer_registers(j, root, s));
                }
            }
            i += 1;
        }
        let l = ScopeList::from_vec(out);
        assert forall|s: ScopeId| l@.to_set().contains(s) == self.registered(root).contains(s) by {
            assert(l@.to_set().contains(s) == out@.contains(s));
            if self.registered(root).contains(s) {
                let j = choose|j: int| #[trigger] self.layer_registers(j, root, s);
                assert(j < i && self.layer_registers(j, root, s));
            }
        }
        assert(l@.to_set() =~= self.registered(root));
        l
    }

    fn scopes(&self) -> (r: Vec<ScopeId>) {
        let mut out: Vec<ScopeId> = Vec::new();
        let mut i: usize = 0;
        while i < self.layers.len()
            invariant
                i <= self.layers.len(),
                self.wf(),
                out@.no_duplicates(),
                forall|s: ScopeId| #[trigger]
                    out@.contains(s) <==> exists|j: int| j < i && #[trigger] self.layer_has(j, s),
            decreases self.layers.len() - i,
        {
            assert(self.stack()[i as int].wf());
            let more: Vec<ScopeId> = self.layers[i].scopes();
            let ghost was = out@;
            add_missing(&mut out, &more);
            assert forall|s: ScopeId| #[trigger] out@.contains(s) <==> exists|j: int|
                j < i + 1 && #[trigger] self.layer_has(j, s) by {
                assert(more@.contains(s) <==> self.layer_has(i as int, s));
                if was.contains(s) {
                    let j = choose|j: int| j < i && #[trigger] self.layer_has(j, s);
                    assert(j < i + 1 && self.layer_has(j, s));
                }
            }
            i += 1;
        }
        let ghost unsorted = out@;
        sort_scopes(&mut out);
        proof {
            assert forall|s: ScopeId| out@.to_set().contains(s) == self.all_scopes().contains(s) by {
                assert(unsorted.to_set().contains(s) == unsorted.contains(s));
                if self.all_scopes().contains(s) {
                    let j = choose|j: int| #[trigger] self.layer_has(j, s);
                    assert(j < i && self.layer_has(j, s));
                }
            }
            assert(out@.to_set() =~= self.all_scopes());
            scopes_in_order_is(out@);
        }
        out
    }

    fn shared_start(&self) -> (c: PairCursor) {
        let c = self.merge_start();
        assert(merge_rest(self.tables(None), c) == merge_all(self.tables(None)));
        c
    }

    fn shared_next(&self, c: &mut PairCursor) -> (r: Option<(NodeId, NodeId)>) {
        self.merge_next(None, c)
    }

    fn overlay_start(&self, scope: ScopeId) -> (c: PairCursor) {
        let c = self.merge_start();
        assert(merge_rest(self.tables(Some(scope)), c) == merge_all(self.tables(Some(scope))));
        c
    }

    fn overlay_next(&self, scope: ScopeId, c: &mut PairCursor) -> (r: Option<(NodeId, NodeId)>) {
        self.merge_next(Some(scope), c)
    }

    fn has_member_index(&self) -> (r: bool) {
        let mut i: usize = 0;
        while i < self.layers.len()
            invariant
                i <= self.layers.len(),
                self.wf(),
                forall|j: int| 0 <= j < i ==> (#[trigger] self.stack()[j]).member_indexed(),
            decreases self.layers.len() - i,
        {
            assert(self.stack()[i as int].wf());
            if !self.layers[i].has_member_index() {
                assert(!self.stack()[i as int].member_indexed());
                return false;
            }
            i += 1;
        }
        true
    }

    fn shared_children(&self, parent: NodeId, limit: usize, out: &mut Vec<NodeId>) {
        self.children(None, parent, limit, out)
    }

    fn overlay_children(
        &self,
        scope: ScopeId,
        parent: NodeId,
        limit: usize,
        out: &mut Vec<NodeId>,
    ) {
        self.children(Some(scope), parent, limit, out)
    }

    fn stats(&self) -> (s: BaseStats) {
        let mut out = BaseStats::default();
        let mut i: usize = 0;
        while i < self.layers.len()
            invariant
                i <= self.layers.len(),
                self.wf(),
                out == summed_stats(self.stack(), i as nat),
            decreases self.layers.len() - i,
        {
            assert(self.stack()[i as int].wf());
            let s = self.layers[i].stats();
            out = BaseStats {
                sequence: if s.sequence > out.sequence {
                    s.sequence
                } else {
                    out.sequence
                },
                shared_pairs: out.shared_pairs.wrapping_add(s.shared_pairs),
                overlay_pairs: out.overlay_pairs.wrapping_add(s.overlay_pairs),
                scopes: 0,
                mapped_bytes: out.mapped_bytes.wrapping_add(s.mapped_bytes),
                index_bytes: out.index_bytes.wrapping_add(s.index_bytes),
                registry_indexed: out.registry_indexed || s.registry_indexed,
            };
            i += 1;
        }
        let scopes: u64 = self.scopes().len() as u64;
        BaseStats { scopes, ..out }
    }
}

/// **A stack reports what its layers do**: it is as recent as the most recent of
/// them, has a registry where one has, and each layer adds its pairs and bytes,
/// modulo the counters' width.
pub proof fn a_stack_reports_what_its_layers_do(stack: Seq<Arc<PuffinBase>>, n: nat, i: int)
    requires
        0 <= i < n <= stack.len(),
    ensures
        ({
            let all = summed_stats(stack, n);
            let before = summed_stats(stack, (n - 1) as nat);
            let last = stack[n - 1].stats_view();
            &&& all.sequence >= stack[i].stats_view().sequence
            &&& all.sequence == before.sequence || all.sequence == last.sequence
            &&& stack[i].stats_view().registry_indexed ==> all.registry_indexed
            &&& all.registry_indexed ==> before.registry_indexed || last.registry_indexed
            &&& all.shared_pairs == before.shared_pairs.wrapping_add(last.shared_pairs)
            &&& all.overlay_pairs == before.overlay_pairs.wrapping_add(last.overlay_pairs)
            &&& all.mapped_bytes == before.mapped_bytes.wrapping_add(last.mapped_bytes)
            &&& all.index_bytes == before.index_bytes.wrapping_add(last.index_bytes)
            &&& summed_stats(stack, 0) == BaseStats::none()
        }),
    decreases n,
{
    if i < n - 1 {
        a_stack_reports_what_its_layers_do(stack, (n - 1) as nat, i);
    }
}

} // verus!
