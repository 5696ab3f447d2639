//! Writing a blocked index: entries pushed in ascending order are grouped by
//! key, and the records are packed into blocks of a target size.

use vstd::prelude::*;

use super::blocks::{
    all_recs, at_most, block_bytes, block_start, blocks_bytes, body_bytes, body_bytes_push,
    entries_ascend, entries_of, entry_le, gap_bytes, gap_bytes_push, grouped, holds_at,
    offset_bytes, payload_bytes, rec_bytes, recs_ascend, values_ascend, values_for,
    written_index_finds, written_index_parses, written_index_walks, BlockIndex, Rec, parse_error,
};
use super::wire::{le_len, put_slice, put_u32_le, put_u64_le, put_varint, varint};

verus! {

/// A block has room for one more record.
pub open spec fn has_room(block: Seq<Rec>, r: Rec, target: nat) -> bool {
    block.len() < u32::MAX && body_bytes(block.push(r)).len() <= target
}

/// Records packed into blocks: a record goes into the last block where it
/// fits the target and starts a new one where it does not, so a record never
/// spans blocks and one wider than the target has a block to itself.
pub open spec fn packed(recs: Seq<Rec>, target: nat) -> Seq<Seq<Rec>>
    decreases recs.len(),
{
    if recs.len() == 0 {
        Seq::empty()
    } else {
        let before = packed(recs.drop_last(), target);
        let r = recs.last();
        if before.len() > 0 && has_room(before.last(), r, target) {
            before.drop_last().push(before.last().push(r))
        } else {
            before.push(seq![r])
        }
    }
}

/// The payload that `entries` are written as.
pub open spec fn index_bytes(entries: Seq<(u64, u64)>, target: nat) -> Seq<u8> {
    payload_bytes(
        (entries.len() % 0x1_0000_0000_0000_0000) as u64,
        packed(grouped(entries), target),
    )
}

/// The values that `entries` has for `key`, in order.
pub open spec fn values_with(entries: Seq<(u64, u64)>, key: u64) -> Seq<u64>
    decreases entries.len(),
{
    if entries.len() == 0 {
        Seq::empty()
    } else if entries.last().0 == key {
        values_with(entries.drop_last(), key).push(entries.last().1)
    } else {
        values_with(entries.drop_last(), key)
    }
}

// --- lemmas ----------------------------------------------------------------------

pub proof fn packed_keeps_records(recs: Seq<Rec>, target: nat)
    ensures
        all_recs(packed(recs, target)) == recs,
        recs.len() > 0 ==> packed(recs, target).len() > 0 && packed(recs, target).last().last()
            == recs.last(),
        forall|i: int|
            0 <= i < packed(recs, target).len() ==> 1 <= (#[trigger] packed(recs, target)[i]).len()
                <= u32::MAX,
    decreases recs.len(),
{
    let p = packed(recs, target);
    if recs.len() == 0 {
        assert(all_recs(p) =~= recs);
    } else {
        packed_keeps_records(recs.drop_last(), target);
        let before = packed(recs.drop_last(), target);
        let r = recs.last();
        if before.len() > 0 && has_room(before.last(), r, target) {
            assert(p.drop_last() =~= before.drop_last());
            assert(p.last() == before.last().push(r));
            assert(all_recs(before) == all_recs(before.drop_last()) + before.last());
            assert(recs =~= recs.drop_last().push(r));
            assert(all_recs(p) =~= recs);
        } else {
            assert(p.drop_last() =~= before);
            assert(recs =~= recs.drop_last().push(r));
            assert(all_recs(p) == all_recs(before) + seq![r]);
            assert(all_recs(p) =~= recs);
        }
    }
}

pub proof fn grouped_last(entries: Seq<(u64, u64)>)
    ensures
        (entries.len() == 0) == (grouped(entries).len() == 0),
        entries.len() > 0 ==> grouped(entries).last().key == entries.last().0
            && grouped(entries).last().values.len() > 0 && grouped(entries).last().values.last()
            == entries.last().1,
        grouped(entries).len() <= entries.len(),
        grouped(entries).len() > 0 ==> grouped(entries).last().values.len() <= entries.len(),
    decreases entries.len(),
{
    if entries.len() > 0 {
        grouped_last(entries.drop_last());
    }
}

proof fn entries_ascend_front(entries: Seq<(u64, u64)>)
    requires
        entries_ascend(entries),
        entries.len() > 0,
    ensures
        entries_ascend(entries.drop_last()),
{
    let front = entries.drop_last();
    assert forall|i: int, j: int| 0 <= i < j < front.len() implies entry_le(
        #[trigger] front[i],
        #[trigger] front[j],
    ) by {
        assert(entry_le(entries[i], entries[j]));
    }
}

pub proof fn grouped_ascends(entries: Seq<(u64, u64)>)
    requires
        entries_ascend(entries),
        entries.len() <= u64::MAX,
    ensures
        recs_ascend(grouped(entries)),
    decreases entries.len(),
{
    if entries.len() > 0 {
        let front = entries.drop_last();
        entries_ascend_front(entries);
        grouped_ascends(front);
        grouped_last(front);
        grouped_last(entries);
        let before = grouped(front);
        let all = grouped(entries);
        let (key, value) = entries.last();
        if front.len() > 0 {
            assert(entry_le(entries[front.len() - 1], entries[front.len() as int]));
        }
        if before.len() > 0 && before.last().key == key {
            let v = before.last().values;
            assert(values_ascend(before[before.len() - 1].values));
            assert forall|i: int, j: int|
                0 <= i <= j < v.push(value).len() implies #[trigger] v.push(value)[i]
                <= #[trigger] v.push(value)[j] by {
                if j == v.len() && i < j {
                    assert(v[i] <= v[v.len() - 1]);
                }
            }
            assert forall|i: int| 0 <= i < all.len() implies values_ascend(
                (#[trigger] all[i]).values,
            ) && all[i].values.len() > 0 && all[i].values.len() <= u64::MAX by {
                if i < all.len() - 1 {
                    assert(all[i] == before[i]);
                }
            }
            assert forall|i: int, j: int| 0 <= i < j < all.len() implies (#[trigger] all[i]).key
                < (#[trigger] all[j]).key by {
                assert(before[i].key < before[j].key);
            }
        } else {
            assert forall|i: int| 0 <= i < all.len() implies values_ascend(
                (#[trigger] all[i]).values,
            ) && all[i].values.len() > 0 && all[i].values.len() <= u64::MAX by {
                if i < all.len() - 1 {
                    assert(all[i] == before[i]);
                }
            }
            assert forall|i: int, j: int| 0 <= i < j < all.len() implies (#[trigger] all[i]).key
                < (#[trigger] all[j]).key by {
                if j < before.len() {
                    assert(before[i].key < before[j].key);
                } else if i < before.len() - 1 {
                    assert(before[i].key < before[before.len() - 1].key);
                }
            }
        }
    }
}

pub proof fn grouped_keeps_entries(entries: Seq<(u64, u64)>)
    ensures
        entries_of(grouped(entries)) == entries,
    decreases entries.len(),
{
    let all = grouped(entries);
    if entries.len() == 0 {
        assert(entries_of(all) =~= entries);
    } else {
        let front = entries.drop_last();
        grouped_keeps_entries(front);
        let before = grouped(front);
        let (key, value) = entries.last();
        if before.len() > 0 && before.last().key == key {
            assert(all.drop_last() =~= before.drop_last());
            assert(all.last().values == before.last().values.push(value));
            let old_part = before.last().values.map_values(|v: u64| (before.last().key, v));
            let new_part = all.last().values.map_values(|v: u64| (all.last().key, v));
            assert(new_part =~= old_part.push((key, value)));
            assert(entries_of(before) == entries_of(before.drop_last()) + old_part);
            assert(entries_of(all) == entries_of(before.drop_last()) + new_part);
            assert(entries =~= front.push((key, value)));
            assert(entries_of(all) =~= entries);
        } else {
            assert(all.drop_last() =~= before);
            let one = all.last().values.map_values(|v: u64| (all.last().key, v));
            assert(one =~= seq![(key, value)]);
            assert(entries_of(all) == entries_of(before) + one);
            assert(entries =~= front + seq![(key, value)]);
        }
    }
}

/// The values of a record in ascending records are found under its key.
proof fn values_for_push(recs: Seq<Rec>, r: Rec, key: u64)
    requires
        forall|i: int| 0 <= i < recs.len() ==> (#[trigger] recs[i]).key < r.key,
    ensures
        values_for(recs.push(r), key) == if key == r.key {
            r.values
        } else {
            values_for(recs, key)
        },
    decreases recs.len(),
{
    let all = recs.push(r);
    if recs.len() == 0 {
        assert(all.skip(1) =~= Seq::empty());
        reveal_with_fuel(values_for, 2);
    } else {
        let rest = recs.skip(1);
        assert(all.skip(1) =~= rest.push(r));
        assert forall|i: int| 0 <= i < rest.len() implies (#[trigger] rest[i]).key < r.key by {
            assert(recs[i + 1].key < r.key);
        }
        assert(recs[0].key < r.key);
        values_for_push(rest, r, key);
    }
}

pub proof fn grouped_values(entries: Seq<(u64, u64)>, key: u64)
    requires
        entries_ascend(entries),
        entries.len() <= u64::MAX,
    ensures
        values_for(grouped(entries), key) == values_with(entries, key),
    decreases entries.len(),
{
    if entries.len() > 0 {
        let front = entries.drop_last();
        entries_ascend_front(entries);
        grouped_ascends(entries);
        grouped_ascends(front);
        grouped_values(front, key);
        grouped_last(front);
        let before = grouped(front);
        let all = grouped(entries);
        let (k, value) = entries.last();
        let last = all.last();
        let init = all.drop_last();
        assert(all =~= init.push(last));
        assert forall|i: int| 0 <= i < init.len() implies (#[trigger] init[i]).key < last.key by {
            assert(all[i].key < all[all.len() - 1].key);
        }
        values_for_push(init, last, key);
        if before.len() > 0 && before.last().key == k {
            assert(init =~= before.drop_last());
            assert(before =~= init.push(before.last()));
            values_for_push(init, before.last(), key);
        } else {
            assert(init =~= before);
            if key == k {
                // No earlier record has this key.
                assert forall|i: int| 0 <= i < before.len() implies (#[trigger] before[i]).key
                    != key by {
                    assert(init[i].key < last.key);
                }
                no_values_for(before, key);
                assert(values_with(entries, key) =~= seq![value]);
            }
        }
    }
}

proof fn no_values_for(recs: Seq<Rec>, key: u64)
    requires
        forall|i: int| 0 <= i < recs.len() ==> (#[trigger] recs[i]).key != key,
    ensures
        values_for(recs, key) == Seq::<u64>::empty(),
    decreases recs.len(),
{
    if recs.len() > 0 {
        let rest = recs.skip(1);
        assert forall|i: int| 0 <= i < rest.len() implies (#[trigger] rest[i]).key != key by {
            assert(recs[i + 1].key != key);
        }
        assert(recs[0].key != key);
        no_values_for(rest, key);
    }
}

pub proof fn blocks_take_room(blocks: Seq<Seq<Rec>>)
    ensures
        12 * blocks.len() <= blocks_bytes(blocks).len(),
    decreases blocks.len(),
{
    if blocks.len() > 0 {
        blocks_take_room(blocks.drop_last());
        let b = blocks.last();
        le_len(b[0].key as nat, 8);
        le_len(b.len() as u32 as nat, 4);
    }
}

/// The entries fit an index: what is written of them is no longer than an
/// address space.
pub open spec fn index_fits(entries: Seq<(u64, u64)>, target: nat) -> bool {
    &&& entries_ascend(entries)
    &&& entries.len() <= u64::MAX
    &&& blocks_bytes(packed(grouped(entries), target)).len() <= u64::MAX
}

/// **What is written reads back**: the payload of ascending entries, anywhere
/// in a mapping, parses; a lookup of any key, present or absent, gives exactly
/// the values pushed for it, in order; and a walk gives back every entry in
/// order.
pub proof fn index_reads_back(
    entries: Seq<(u64, u64)>,
    target: nat,
    data: Seq<u8>,
    start: int,
)
    requires
        index_fits(entries, target),
        holds_at(data, start, index_bytes(entries, target)),
    ensures
        parse_error(data, start, start + index_bytes(entries, target).len()) is None,
        forall|index: BlockIndex| #[trigger]
            index.describes(data, start) ==> index.entries(data) == entries && index.count
                == entries.len(),
        forall|index: BlockIndex, key: u64, limit: nat|
            index.describes(data, start) && index.fits(data.len()) ==> #[trigger] index.found(
                data,
                key,
                limit,
            ) == Some(at_most(values_with(entries, key), limit)),
{
    let recs = grouped(entries);
    let blocks = packed(recs, target);
    let count = (entries.len() % 0x1_0000_0000_0000_0000) as u64;
    grouped_ascends(entries);
    packed_keeps_records(recs, target);
    blocks_take_room(blocks);
    written_index_parses(data, start, count, blocks);
    grouped_keeps_entries(entries);
    assert forall|index: BlockIndex| #[trigger] index.describes(data, start) implies index.entries(
        data,
    ) == entries && index.count == entries.len() by {
        written_index_walks(&index, data, start, count, blocks);
    }
    assert forall|index: BlockIndex, key: u64, limit: nat|
        index.describes(data, start) && index.fits(data.len()) implies #[trigger] index.found(
        data,
        key,
        limit,
    ) == Some(at_most(values_with(entries, key), limit)) by {
        written_index_finds(&index, data, start, count, blocks, key, limit);
        grouped_values(entries, key);
    }
}

// --- the writer --------------------------------------------------------------------

/// Streaming encoder of a blocked index. It buffers one key's values at a
/// time, so heap beyond the payload is bounded by the widest fan-out.
pub struct BlockWriter {
    /// Entries pushed; wraps.
    count: u64,
    /// The record being accumulated.
    key: Option<u64>,
    values: Vec<u64>,
    /// The block being filled, and its framing.
    body: Vec<u8>,
    records: u32,
    first_key: u64,
    prev_key: u64,
    /// Closed blocks and their start offsets.
    blocks: Vec<u8>,
    offsets: Vec<u64>,
    target: usize,
    entries: Ghost<Seq<(u64, u64)>>,
    /// Records already in a block.
    done: Ghost<Seq<Rec>>,
}

impl BlockWriter {
    /// Every entry pushed so far.
    pub closed spec fn entries(&self) -> Seq<(u64, u64)> {
        self.entries@
    }

    /// The block size aimed at.
    pub closed spec fn target(&self) -> nat {
        self.target as nat
    }

    /// The records in closed blocks, and the block being filled.
    spec fn framed(&self) -> bool {
        let p = packed(self.done@, self.target as nat);
        &&& (self.records == 0) == (self.done@.len() == 0)
        &&& self.done@.len() > 0 ==> {
            &&& p.last().len() == self.records
            &&& self.body@ == body_bytes(p.last())
            &&& self.first_key == p.last()[0].key
            &&& self.prev_key == self.done@.last().key
            &&& self.blocks@ == blocks_bytes(p.drop_last())
            &&& self.offsets@.len() == p.len() - 1
            &&& forall|i: int|
                0 <= i < self.offsets@.len() ==> #[trigger] self.offsets@[i] == block_start(p, i)
        }
        &&& self.done@.len() == 0 ==> self.blocks@.len() == 0 && self.offsets@.len() == 0
    }

    spec fn pending(&self) -> Seq<Rec> {
        match self.key {
            Some(key) => seq![Rec { key, values: self.values@ }],
            None => Seq::empty(),
        }
    }

    pub closed spec fn wf(&self) -> bool {
        &&& entries_ascend(self.entries@)
        &&& self.count == self.entries@.len() % 0x1_0000_0000_0000_0000
        &&& grouped(self.entries@) == self.done@ + self.pending()
        &&& (self.key is None) == (self.entries@.len() == 0)
        &&& self.key is Some ==> self.values@.len() > 0 && values_ascend(self.values@)
        &&& self.key is Some && self.done@.len() > 0 ==> self.prev_key < self.key->0
        &&& self.framed()
    }

    pub fn new(target: usize) -> (w: BlockWriter)
        ensures
            w.wf(),
            w.entries() == Seq::<(u64, u64)>::empty(),
            w.target() == target,
    {
        let w = BlockWriter {
            count: 0,
            key: None,
            values: Vec::new(),
            body: Vec::new(),
            records: 0,
            first_key: 0,
            prev_key: 0,
            blocks: Vec::new(),
            offsets: Vec::new(),
            target,
            entries: Ghost(Seq::empty()),
            done: Ghost(Seq::empty()),
        };
        assert(grouped(w.entries@) =~= w.done@ + w.pending());
        w
    }

    /// Entries pushed, modulo the counter's width.
    pub fn count(&self) -> (n: u64)
        requires
            self.wf(),
        ensures
            n == self.entries().len() % 0x1_0000_0000_0000_0000,
    {
        self.count
    }

    pub fn is_empty(&self) -> (b: bool)
        requires
            self.wf(),
        ensures
            b == (self.entries().len() == 0),
    {
        self.key.is_none()
    }

    /// The last entry pushed.
    pub fn last(&self) -> (e: Option<(u64, u64)>)
        requires
            self.wf(),
        ensures
            e == if self.entries().len() == 0 {
                None
            } else {
                Some(self.entries().last())
            },
    {
        proof {
            grouped_last(self.entries@);
        }
        match self.key {
            None => None,
            Some(key) => {
                assert(grouped(self.entries@).last() == self.pending()[0]);
                Some((key, self.values[self.values.len() - 1]))
            },
        }
    }

    /// Adds an entry, which must not come before the last one.
    pub fn push(&mut self, key: u64, value: u64)
        requires
            old(self).wf(),
            old(self).entries().len() > 0 ==> entry_le(old(self).entries().last(), (key, value)),
        ensures
            final(self).wf(),
            final(self).entries() == old(self).entries().push((key, value)),
            final(self).target() == old(self).target(),
    {
        let ghost before = self.entries@;
        let ghost all = before.push((key, value));
        proof {
            grouped_last(before);
            assert(all.drop_last() =~= before);
            assert forall|i: int, j: int| 0 <= i < j < all.len() implies entry_le(
                #[trigger] all[i],
                #[trigger] all[j],
            ) by {
                if j < before.len() {
                    assert(entry_le(before[i], before[j]));
                } else if i < before.len() - 1 {
                    assert(entry_le(before[i], before[before.len() - 1]));
                }
            }
            if self.key is Some {
                assert(grouped(before).last() == self.pending()[0]);
            }
        }
        let same: bool = match self.key {
            Some(k) => k == key,
            None => false,
        };
        if same {
            let ghost was = self.values@;
            self.values.push(value);
            proof {
                let now = self.values@;
                assert forall|i: int, j: int| 0 <= i <= j < now.len() implies #[trigger] now[i]
                    <= #[trigger] now[j] by {
                    if j == was.len() && i < j {
                        assert(was[i] <= was[was.len() - 1]);
                    }
                }
                assert(grouped(before).drop_last() =~= self.done@);
                assert(grouped(all) =~= self.done@ + self.pending());
            }
        } else {
            self.close_record();
            self.key = Some(key);
            let mut values: Vec<u64> = Vec::new();
            values.push(value);
            self.values = values;
            proof {
                assert(values_ascend(self.values@));
                assert(self.values@ =~= seq![value]);
                assert(grouped(before) =~= self.done@);
                assert(grouped(all) =~= self.done@ + self.pending());
            }
        }
        self.count = self.count.wrapping_add(1);
        self.entries = Ghost(all);
    }

    /// Encodes the buffered record and appends it to the open block, starting
    /// a new block when it would not fit.
    fn close_record(&mut self)
        requires
            old(self).framed(),
            old(self).key is Some ==> old(self).values@.len() > 0 && values_ascend(
                old(self).values@,
            ),
            old(self).key is Some && old(self).done@.len() > 0 ==> old(self).prev_key < old(
                self,
            ).key->0,
        ensures
            final(self).framed(),
            final(self).done@ == old(self).done@ + old(self).pending(),
            final(self).key is None,
            final(self).count == old(self).count,
            final(self).entries@ == old(self).entries@,
            final(self).target == old(self).target,
    {
        let key: u64 = match self.key {
            None => {
                assert(self.done@ =~= self.done@ + self.pending());
                return;
            },
            Some(k) => k,
        };
        let ghost r = Rec { key, values: self.values@ };
        let ghost done = self.done@;
        let ghost target = self.target as nat;
        let ghost p = packed(done, target);
        proof {
            packed_keeps_records(done, target);
            assert(done.push(r).drop_last() =~= done);
            assert(done + self.pending() =~= done.push(r));
        }
        self.key = None;
        let mut rec: Vec<u8> = Vec::new();
        let k: usize = self.values.len();
        put_varint(&mut rec, k as u64);
        let mut prev: u64 = 0;
        let mut i: usize = 0;
        assert(rec@ =~= varint(k as nat) + gap_bytes(self.values@.take(0), 0));
        while i < k
            invariant
                i <= k,
                k == self.values@.len(),
                values_ascend(self.values@),
                rec@ == varint(k as nat) + gap_bytes(self.values@.take(i as int), 0),
                prev == if i == 0 {
                    0
                } else {
                    self.values@[i - 1]
                },
            decreases k - i,
        {
            let v: u64 = self.values[i];
            let ghost taken = self.values@.take(i as int);
            proof {
                if i > 0 {
                    assert(self.values@[i - 1] <= self.values@[i as int]);
                    assert(taken.last() == self.values@[i - 1]);
                }
                assert forall|a: int, b: int| 0 <= a <= b < taken.len() implies #[trigger] taken[a]
                    <= #[trigger] taken[b] by {
                    assert(self.values@[a] <= self.values@[b]);
                }
                gap_bytes_push(taken, v, 0);
                assert(self.values@.take(i + 1) =~= taken.push(v));
            }
            put_varint(&mut rec, v - prev);
            assert(rec@ =~= varint(k as nat) + gap_bytes(self.values@.take(i + 1), 0));
            prev = v;
            i += 1;
        }
        assert(self.values@.take(k as int) =~= self.values@);
        assert(rec@ == rec_bytes(r.values));

        if self.records > 0 {
            let mut gap: Vec<u8> = Vec::new();
            put_varint(&mut gap, key - self.prev_key);
            assert(gap@ =~= varint((key - self.prev_key) as nat));
            let target_now: usize = self.target;
            let used: usize = self.body.len();
            proof {
                body_bytes_push(p.last(), r);
            }
            let room: bool = used <= target_now && rec.len() <= target_now - used && gap.len()
                <= target_now - used - rec.len() && self.records < u32::MAX;
            assert(room == has_room(p.last(), r, target));
            if room {
                put_slice(&mut self.body, gap.as_slice());
                put_slice(&mut self.body, rec.as_slice());
                self.records = self.records + 1;
                self.prev_key = key;
                self.done = Ghost(done.push(r));
                proof {
                    let q = packed(done.push(r), target);
                    assert(q == p.drop_last().push(p.last().push(r)));
                    assert(q.drop_last() =~= p.drop_last());
                    assert(q.last() == p.last().push(r));
                    assert forall|j: int| 0 <= j < self.offsets@.len() implies #[trigger] self.offsets@[j]
                        == block_start(q, j) by {
                        assert(q.take(j) =~= p.take(j));
                    }
                    assert(self.framed());
                }
                return;
            }
            self.close_block();
        }
        // The first record of a block has its key in the block header, so no
        // gap is written.
        proof {
            if done.len() > 0 {
                assert(p.drop_last().push(p.last()) =~= p);
            }
        }
        self.first_key = key;
        self.prev_key = key;
        self.body = rec;
        self.records = 1;
        self.done = Ghost(done.push(r));
        proof {
            let q = packed(done.push(r), target);
            assert(q == p.push(seq![r]));
            assert(q.drop_last() =~= p);
            assert(q.last() == seq![r]);
            assert(seq![r].skip(1) =~= Seq::empty());
            assert(body_bytes(seq![r]) =~= rec_bytes(r.values));
            assert(self.blocks@ == blocks_bytes(p));
            assert forall|j: int| 0 <= j < self.offsets@.len() implies #[trigger] self.offsets@[j]
                == block_start(q, j) by {
                assert(q.take(j) =~= p.take(j));
            }
        }
    }

    /// Frames the open block and appends it to the closed ones.
    fn close_block(&mut self)
        requires
            old(self).framed(),
            old(self).done@.len() > 0,
        ensures
            ({
                let p = packed(old(self).done@, old(self).target as nat);
                &&& final(self).blocks@ == blocks_bytes(p)
                &&& final(self).offsets@.len() == p.len()
                &&& forall|i: int|
                    0 <= i < p.len() ==> #[trigger] final(self).offsets@[i] == block_start(p, i)
            }),
            final(self).done@ == old(self).done@,
            final(self).key == old(self).key,
            final(self).values@ == old(self).values@,
            final(self).count == old(self).count,
            final(self).entries@ == old(self).entries@,
            final(self).target == old(self).target,
    {
        let ghost p = packed(self.done@, self.target as nat);
        proof {
            packed_keeps_records(self.done@, self.target as nat);
            assert(p.take(p.len() - 1) =~= p.drop_last());
        }
        let at: u64 = self.blocks.len() as u64;
        self.offsets.push(at);
        put_u64_le(&mut self.blocks, self.first_key);
        put_u32_le(&mut self.blocks, self.records);
        put_slice(&mut self.blocks, self.body.as_slice());
        assert(self.blocks@ =~= blocks_bytes(p.drop_last()) + block_bytes(p.last()));
    }

    /// The payload, or `None` when nothing was pushed.
    pub fn finish(self) -> (r: Option<Vec<u8>>)
        requires
            self.wf(),
        ensures
            match r {
                None => self.entries().len() == 0,
                Some(bytes) => self.entries().len() > 0 && bytes@ == index_bytes(
                    self.entries(),
                    self.target(),
                ) && (self.entries().len() <= u64::MAX ==> index_fits(
                    self.entries(),
                    self.target(),
                )),
            },
    {
        let mut w = self;
        if w.key.is_none() {
            return None;
        }
        proof {
            grouped_last(w.entries@);
        }
        w.close_record();
        assert(w.done@ =~= grouped(self.entries@));
        w.close_block();
        let ghost p = packed(w.done@, w.target as nat);
        let count: u64 = w.offsets.len() as u64;
        let len: u64 = w.blocks.len() as u64;
        let mut out: Vec<u8> = Vec::new();
        put_u64_le(&mut out, w.count);
        put_u64_le(&mut out, count);
        let ghost head = out@;
        let mut i: usize = 0;
        assert(head + offset_bytes(p, 0) =~= head);
        while i < w.offsets.len()
            invariant
                i <= w.offsets.len(),
                w.offsets@.len() == p.len(),
                forall|j: int|
                    0 <= j < p.len() ==> #[trigger] w.offsets@[j] == block_start(p, j),
                out@ == head + offset_bytes(p, i as nat),
            decreases w.offsets.len() - i,
        {
            let o: u64 = w.offsets[i];
            put_u64_le(&mut out, o);
            assert(out@ =~= head + offset_bytes(p, (i + 1) as nat));
            i += 1;
        }
        put_u64_le(&mut out, len);
        assert(p.take(p.len() as int) =~= p);
        assert(out@ =~= head + offset_bytes(p, p.len() + 1));
        put_slice(&mut out, w.blocks.as_slice());
        assert(out@ =~= payload_bytes(w.count, p));
        Some(out)
    }
}

/// **Blocks stay within their size**: none is empty, one with several records is
/// no larger than the target, and a record starts a new block only where the one
/// before it had no room.
pub proof fn blocks_stay_within_their_size(recs: Seq<Rec>, target: nat, i: int)
    requires
        0 <= i < packed(recs, target).len(),
    ensures
        packed(recs, target)[i].len() > 0,
        packed(recs, target)[i].len() > 1 ==> body_bytes(packed(recs, target)[i]).len() <= target,
        i + 1 < packed(recs, target).len() && packed(recs, target)[i].len() < u32::MAX
            ==> body_bytes(
            packed(recs, target)[i].push(packed(recs, target)[i + 1][0]),
        ).len() > target,
    decreases recs.len(),
{
    let out = packed(recs, target);
    let before = packed(recs.drop_last(), target);
    let r = recs.last();
    let n = before.len() as int;
    if n > 0 && has_room(before.last(), r, target) {
        if i < n - 1 {
            blocks_stay_within_their_size(recs.drop_last(), target, i);
            blocks_stay_within_their_size(recs.drop_last(), target, i + 1);
            assert(out[i] == before[i]);
            assert(out[i + 1][0] == before[i + 1][0]);
        } else {
            blocks_stay_within_their_size(recs.drop_last(), target, n - 1);
        }
    } else {
        if i < n {
            blocks_stay_within_their_size(recs.drop_last(), target, i);
            assert(out[i] == before[i]);
            if i + 1 < n {
                assert(out[i + 1] == before[i + 1]);
            }
        }
    }
}

} // verus!
