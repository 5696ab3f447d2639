//! Delta-varint records in offset-indexed blocks: the layout the registry and
//! the member index share.
//!
//! ```text
//! u64 LE   entry count
//! u64 LE   block count B
//! u64 LE   x (B+1)   block offsets, relative to the first block
//! blocks   each: u64 LE first key, u32 LE record count, then records
//! record   [varint key gap]  varint k  varint value gap x k
//! ```
//!
//! Value gaps run from zero, so the first value of a record is absolute. The
//! first record of a block omits the key gap: the block header carries its key
//! absolutely, which is what makes a block decodable without its predecessors
//! and gives the reader an O(1) first key to binary-search.

use vstd::prelude::*;

use super::wire::{
    get_u32_le, get_u64_le, get_varint, le32, le64, le_len, u32_at, u64_at, varint, varint_at,
    varint_reads_back,
};

verus! {

// --- what a payload holds -----------------------------------------------------

/// One key with its values.
pub ghost struct Rec {
    pub key: u64,
    pub values: Seq<u64>,
}

/// The gaps of `values`, the first one from `prev`.
pub open spec fn gap_bytes(values: Seq<u64>, prev: u64) -> Seq<u8>
    decreases values.len(),
{
    if values.len() == 0 {
        Seq::empty()
    } else {
        varint((values[0] - prev) as nat) + gap_bytes(values.skip(1), values[0])
    }
}

/// A record without its key gap.
pub open spec fn rec_bytes(values: Seq<u64>) -> Seq<u8> {
    varint(values.len()) + gap_bytes(values, 0)
}

/// Records that follow one with key `prev`.
pub open spec fn tail_bytes(recs: Seq<Rec>, prev: u64) -> Seq<u8>
    decreases recs.len(),
{
    if recs.len() == 0 {
        Seq::empty()
    } else {
        varint((recs[0].key - prev) as nat) + rec_bytes(recs[0].values) + tail_bytes(
            recs.skip(1),
            recs[0].key,
        )
    }
}

/// The records of a block.
pub open spec fn body_bytes(recs: Seq<Rec>) -> Seq<u8> {
    if recs.len() == 0 {
        Seq::empty()
    } else {
        rec_bytes(recs[0].values) + tail_bytes(recs.skip(1), recs[0].key)
    }
}

/// A whole block.
pub open spec fn block_bytes(recs: Seq<Rec>) -> Seq<u8> {
    le64(recs[0].key) + le32(recs.len() as u32) + body_bytes(recs)
}

/// Blocks, one after the other.
pub open spec fn blocks_bytes(blocks: Seq<Seq<Rec>>) -> Seq<u8>
    decreases blocks.len(),
{
    if blocks.len() == 0 {
        Seq::empty()
    } else {
        blocks_bytes(blocks.drop_last()) + block_bytes(blocks.last())
    }
}

/// Where block `i` starts, relative to the first.
pub open spec fn block_start(blocks: Seq<Seq<Rec>>, i: int) -> nat {
    blocks_bytes(blocks.take(i)).len()
}

/// The offset table for the first `n` entries.
pub open spec fn offset_bytes(blocks: Seq<Seq<Rec>>, n: nat) -> Seq<u8>
    decreases n,
{
    if n == 0 {
        Seq::empty()
    } else {
        offset_bytes(blocks, (n - 1) as nat) + le64(block_start(blocks, n - 1) as u64)
    }
}

/// A whole payload.
pub open spec fn payload_bytes(count: u64, blocks: Seq<Seq<Rec>>) -> Seq<u8> {
    le64(count) + le64(blocks.len() as u64) + offset_bytes(blocks, blocks.len() + 1)
        + blocks_bytes(blocks)
}

/// Values in ascending order; repeats are allowed.
pub open spec fn values_ascend(values: Seq<u64>) -> bool {
    forall|i: int, j: int| 0 <= i <= j < values.len() ==> #[trigger] values[i] <= #[trigger] values[j]
}

/// Records with keys strictly ascending, each with at least one value, values
/// ascending.
pub open spec fn recs_ascend(recs: Seq<Rec>) -> bool {
    &&& forall|i: int, j: int|
        0 <= i < j < recs.len() ==> (#[trigger] recs[i]).key < (#[trigger] recs[j]).key
    &&& forall|i: int|
        0 <= i < recs.len() ==> values_ascend((#[trigger] recs[i]).values) && recs[i].values.len()
            > 0 && recs[i].values.len() <= u64::MAX
}

/// All records of `blocks`, in order.
pub open spec fn all_recs(blocks: Seq<Seq<Rec>>) -> Seq<Rec>
    decreases blocks.len(),
{
    if blocks.len() == 0 {
        Seq::empty()
    } else {
        all_recs(blocks.drop_last()) + blocks.last()
    }
}

/// No block is empty or has more records than its header can say.
pub open spec fn blocks_fit(blocks: Seq<Seq<Rec>>) -> bool {
    &&& forall|i: int|
        0 <= i < blocks.len() ==> 1 <= (#[trigger] blocks[i]).len() <= u32::MAX
    &&& blocks_bytes(blocks).len() <= u64::MAX
    &&& blocks.len() < u64::MAX
}

/// The `(key, value)` entries of `recs`, in order.
pub open spec fn entries_of(recs: Seq<Rec>) -> Seq<(u64, u64)>
    decreases recs.len(),
{
    if recs.len() == 0 {
        Seq::empty()
    } else {
        entries_of(recs.drop_last()) + recs.last().values.map_values(
            |v: u64| (recs.last().key, v),
        )
    }
}

/// The records that group `entries` by key, dropping nothing.
pub open spec fn grouped(entries: Seq<(u64, u64)>) -> Seq<Rec>
    decreases entries.len(),
{
    if entries.len() == 0 {
        Seq::empty()
    } else {
        let before = grouped(entries.drop_last());
        let (key, value) = entries.last();
        if before.len() > 0 && before.last().key == key {
            before.drop_last().push(Rec { key, values: before.last().values.push(value) })
        } else {
            before.push(Rec { key, values: seq![value] })
        }
    }
}

/// Entries in ascending `(key, value)` order; repeats are allowed.
pub open spec fn entries_ascend(entries: Seq<(u64, u64)>) -> bool {
    forall|i: int, j: int|
        0 <= i < j < entries.len() ==> entry_le(#[trigger] entries[i], #[trigger] entries[j])
}

pub open spec fn entry_le(a: (u64, u64), b: (u64, u64)) -> bool {
    a.0 < b.0 || (a.0 == b.0 && a.1 <= b.1)
}

// --- lemmas about the layout -----------------------------------------------------

pub proof fn gap_bytes_push(values: Seq<u64>, v: u64, prev: u64)
    requires
        values_ascend(values),
        values.len() > 0 ==> prev <= values[0] && values.last() <= v,
        prev <= v,
    ensures
        gap_bytes(values.push(v), prev) == gap_bytes(values, prev) + varint(
            (v - (if values.len() == 0 {
                prev
            } else {
                values.last()
            })) as nat,
        ),
    decreases values.len(),
{
    let all = values.push(v);
    if values.len() == 0 {
        assert(all.skip(1) =~= Seq::empty());
        assert(gap_bytes(all.skip(1), v) =~= Seq::empty());
        assert(gap_bytes(all, prev) =~= gap_bytes(values, prev) + varint((v - prev) as nat));
    } else {
        let rest = values.skip(1);
        assert(all.skip(1) =~= rest.push(v));
        assert forall|i: int, j: int| 0 <= i <= j < rest.len() implies #[trigger] rest[i]
            <= #[trigger] rest[j] by {
            assert(values[i + 1] <= values[j + 1]);
        }
        assert(values[0] <= values[values.len() - 1]);
        if rest.len() > 0 {
            assert(values[0] <= values[1]);
            assert(rest.last() == values.last());
        }
        gap_bytes_push(rest, v, values[0]);
        assert(gap_bytes(all, prev) =~= gap_bytes(values, prev) + varint(
            (v - values.last()) as nat,
        ));
    }
}

pub proof fn tail_bytes_push(recs: Seq<Rec>, r: Rec, prev: u64)
    ensures
        tail_bytes(recs.push(r), prev) == tail_bytes(recs, prev) + varint(
            (r.key - (if recs.len() == 0 {
                prev
            } else {
                recs.last().key
            })) as nat,
        ) + rec_bytes(r.values),
    decreases recs.len(),
{
    let all = recs.push(r);
    if recs.len() == 0 {
        assert(all.skip(1) =~= Seq::empty());
        assert(tail_bytes(all.skip(1), r.key) =~= Seq::empty());
        assert(tail_bytes(all, prev) =~= tail_bytes(recs, prev) + varint((r.key - prev) as nat)
            + rec_bytes(r.values));
    } else {
        let rest = recs.skip(1);
        assert(all.skip(1) =~= rest.push(r));
        if rest.len() > 0 {
            assert(rest.last() == recs.last());
        }
        tail_bytes_push(rest, r, recs[0].key);
        assert(tail_bytes(all, prev) =~= tail_bytes(recs, prev) + varint(
            (r.key - recs.last().key) as nat,
        ) + rec_bytes(r.values));
    }
}

pub proof fn body_bytes_push(recs: Seq<Rec>, r: Rec)
    requires
        recs.len() > 0,
    ensures
        body_bytes(recs.push(r)) == body_bytes(recs) + varint((r.key - recs.last().key) as nat)
            + rec_bytes(r.values),
{
    let rest = recs.skip(1);
    assert(recs.push(r).skip(1) =~= rest.push(r));
    if rest.len() > 0 {
        assert(rest.last() == recs.last());
    }
    tail_bytes_push(rest, r, recs[0].key);
    assert(body_bytes(recs.push(r)) =~= body_bytes(recs) + varint(
        (r.key - recs.last().key) as nat,
    ) + rec_bytes(r.values));
}

pub proof fn block_start_next(blocks: Seq<Seq<Rec>>, i: int)
    requires
        0 <= i < blocks.len(),
    ensures
        block_start(blocks, i + 1) == block_start(blocks, i) + block_bytes(blocks[i]).len(),
{
    let next = blocks.take(i + 1);
    assert(next.drop_last() =~= blocks.take(i));
    assert(next.last() == blocks[i]);
}

/// Block `i` of the payload stands where the offsets say.
pub proof fn block_is_there(blocks: Seq<Seq<Rec>>, i: int)
    requires
        0 <= i < blocks.len(),
    ensures
        block_start(blocks, i) + block_bytes(blocks[i]).len() <= blocks_bytes(blocks).len(),
        blocks_bytes(blocks).subrange(
            block_start(blocks, i) as int,
            (block_start(blocks, i) + block_bytes(blocks[i]).len()) as int,
        ) == block_bytes(blocks[i]),
    decreases blocks.len(),
{
    let front = blocks.drop_last();
    let all = blocks_bytes(blocks);
    let at = block_start(blocks, i) as int;
    let len = block_bytes(blocks[i]).len();
    if i == blocks.len() - 1 {
        assert(blocks.take(i) =~= front);
        assert(all.subrange(at, at + len) =~= block_bytes(blocks[i]));
    } else {
        block_is_there(front, i);
        assert(front.take(i) =~= blocks.take(i));
        assert(front[i] == blocks[i]);
        assert(all.subrange(at, at + len) =~= blocks_bytes(front).subrange(at, at + len));
    }
}

pub proof fn offset_bytes_len(blocks: Seq<Seq<Rec>>, n: nat)
    ensures
        offset_bytes(blocks, n).len() == 8 * n,
    decreases n,
{
    if n > 0 {
        offset_bytes_len(blocks, (n - 1) as nat);
        le_len(block_start(blocks, n - 1) as u64 as nat, 8);
    }
}

/// Entry `i` of the offset table is where block `i` starts.
pub proof fn offset_is_there(blocks: Seq<Seq<Rec>>, n: nat, i: int)
    requires
        0 <= i < n,
    ensures
        offset_bytes(blocks, n).len() == 8 * n,
        offset_bytes(blocks, n).subrange(8 * i, 8 * i + 8) == le64(block_start(blocks, i) as u64),
    decreases n,
{
    let less = (n - 1) as nat;
    offset_bytes_len(blocks, n);
    offset_bytes_len(blocks, less);
    le_len(block_start(blocks, n - 1) as u64 as nat, 8);
    let all = offset_bytes(blocks, n);
    if i == n - 1 {
        assert(all.subrange(8 * i, 8 * i + 8) =~= le64(block_start(blocks, i) as u64));
    } else {
        offset_is_there(blocks, less, i);
        assert(all.subrange(8 * i, 8 * i + 8) =~= offset_bytes(blocks, less).subrange(
            8 * i,
            8 * i + 8,
        ));
    }
}

// --- reading -----------------------------------------------------------------------

/// Why a payload is not a blocked index.
#[derive(Debug, Clone, Copy, PartialEq, Eq, Structural)]
pub enum BlockError {
    /// The payload's range lies outside the mapping.
    OutsideMapping,
    /// There is no room for the header.
    Truncated,
    /// There is no room for the offsets of the blocks it claims.
    NoRoomForOffsets,
    /// The offsets do not end where the payload ends.
    LengthMismatch,
    /// Block offsets are not strictly increasing.
    OffsetsNotIncreasing,
    /// A block is too short for its header.
    BlockTooShort,
    /// The blocks' first keys are not sorted.
    KeysNotSorted,
}

/// Number of blocks the payload at `start` claims.
pub open spec fn claimed_blocks(data: Seq<u8>, start: int) -> u64 {
    u64_at(data, start + 8)
}

/// Size of the header and the offset table.
pub open spec fn table_len(data: Seq<u8>, start: int) -> int {
    16 + (claimed_blocks(data, start) + 1) * 8
}

/// Entry `i` of the offset table.
pub open spec fn offset_at(data: Seq<u8>, start: int, i: int) -> u64 {
    u64_at(data, start + 16 + 8 * i)
}

/// Where block `i` is.
pub open spec fn block_at(data: Seq<u8>, start: int, i: int) -> int {
    start + table_len(data, start) + offset_at(data, start, i)
}

pub open spec fn first_key_at(data: Seq<u8>, start: int, i: int) -> u64 {
    u64_at(data, block_at(data, start, i))
}

/// The first thing wrong with the payload at `start..end`.
pub open spec fn parse_error(data: Seq<u8>, start: int, end: int) -> Option<BlockError> {
    let blocks = claimed_blocks(data, start) as int;
    let table = table_len(data, start);
    if !(start <= end <= data.len()) {
        Some(BlockError::OutsideMapping)
    } else if end - start < 16 {
        Some(BlockError::Truncated)
    } else if end - start < table {
        Some(BlockError::NoRoomForOffsets)
    } else if offset_at(data, start, blocks) != end - start - table {
        Some(BlockError::LengthMismatch)
    } else if exists|i: int|
        0 <= i < blocks && offset_at(data, start, i) >= #[trigger] offset_at(data, start, i + 1) {
        Some(BlockError::OffsetsNotIncreasing)
    } else if exists|i: int|
        0 <= i < blocks && #[trigger] offset_at(data, start, i + 1) - offset_at(data, start, i)
            < 12 {
        Some(BlockError::BlockTooShort)
    } else if exists|i: int|
        0 <= i < blocks - 1 && first_key_at(data, start, i) >= #[trigger] first_key_at(
            data,
            start,
            i + 1,
        ) {
        Some(BlockError::KeysNotSorted)
    } else {
        None
    }
}

/// `k` values starting at `i`, their gaps from `prev`, and the offset past
/// them. `None` where the bytes are not that.
pub open spec fn read_values(data: Seq<u8>, i: int, k: nat, prev: u64) -> Option<(Seq<u64>, int)>
    decreases k,
{
    if k == 0 {
        Some((Seq::empty(), i))
    } else {
        match varint_at(data, i) {
            None => None,
            Some((gap, next)) => if prev + gap > u64::MAX {
                None
            } else {
                let v = (prev + gap) as u64;
                match read_values(data, next, (k - 1) as nat, v) {
                    None => None,
                    Some((rest, end)) => Some((seq![v] + rest, end)),
                }
            },
        }
    }
}

/// The key of the record at `i` and the offset of its count. The first record
/// of a block has the key its header says.
pub open spec fn read_key(data: Seq<u8>, i: int, first: bool, prev: u64) -> Option<(u64, int)> {
    if first {
        Some((prev, i))
    } else {
        match varint_at(data, i) {
            None => None,
            Some((gap, next)) => if prev + gap > u64::MAX {
                None
            } else {
                Some(((prev + gap) as u64, next))
            },
        }
    }
}

proof fn read_values_len(data: Seq<u8>, i: int, k: nat, prev: u64)
    ensures
        read_values(data, i, k, prev) matches Some((values, _)) ==> values.len() == k,
    decreases k,
{
    if k > 0 {
        if let Some((gap, next)) = varint_at(data, i) {
            if prev + gap <= u64::MAX {
                read_values_len(data, next, (k - 1) as nat, (prev + gap) as u64);
            }
        }
    }
}

proof fn find_in_is_limited(
    data: Seq<u8>,
    i: int,
    end: int,
    left: nat,
    first: bool,
    prev: u64,
    want: u64,
    limit: nat,
)
    ensures
        find_in(data, i, end, left, first, prev, want, limit) matches Some(v) ==> v.len() <= limit,
    decreases left,
{
    if left > 0 {
        if let Some((key, at)) = read_key(data, i, first, prev) {
            if let Some((k, next)) = varint_at(data, at) {
                if key == want {
                    let n = if k <= limit {
                        k as nat
                    } else {
                        limit
                    };
                    read_values_len(data, next, n, 0);
                } else if key < want {
                    if let Some((_, after)) = read_values(data, next, k as nat, 0) {
                        find_in_is_limited(
                            data,
                            after,
                            end,
                            (left - 1) as nat,
                            false,
                            key,
                            want,
                            limit,
                        );
                    }
                }
            }
        }
    }
}

/// The first `limit` values recorded for `want` among the `left` records from
/// `i` on. `None` where a record that had to be read is malformed.
pub open spec fn find_in(
    data: Seq<u8>,
    i: int,
    end: int,
    left: nat,
    first: bool,
    prev: u64,
    want: u64,
    limit: nat,
) -> Option<Seq<u64>>
    decreases left,
{
    if left == 0 {
        Some(Seq::empty())
    } else {
        match read_key(data, i, first, prev) {
            None => None,
            Some((key, at)) => match varint_at(data, at) {
                None => None,
                Some((k, next)) => if key > want {
                    Some(Seq::empty())
                } else if key == want {
                    match read_values(
                        data,
                        next,
                        if k <= limit {
                            k as nat
                        } else {
                            limit
                        },
                        0,
                    ) {
                        None => None,
                        Some((values, _)) => Some(values),
                    }
                } else {
                    match read_values(data, next, k as nat, 0) {
                        None => None,
                        Some((_, after)) => if after > end {
                            None
                        } else {
                            find_in(
                                data,
                                after,
                                end,
                                (left - 1) as nat,
                                false,
                                key,
                                want,
                                limit,
                            )
                        },
                    }
                },
            },
        }
    }
}

/// A blocked index inside a mapping: where its blocks are, and their first
/// keys, both hoisted to the heap so narrowing to a block touches no page of
/// the mapping.
#[derive(Debug)]
pub struct BlockIndex {
    /// Offset of the first block within the mapping.
    pub blocks_at: usize,
    /// Entries the payload claims.
    pub count: u64,
    /// Byte offset of each block relative to `blocks_at`, with a trailing
    /// entry for the end of the last block.
    pub offsets: Vec<u64>,
    pub first_keys: Vec<u64>,
}

/// How many of the ascending `keys` are at most `key`.
pub open spec fn keys_at_most(keys: Seq<u64>, key: u64, n: int) -> bool {
    &&& 0 <= n <= keys.len()
    &&& forall|i: int| 0 <= i < n ==> #[trigger] keys[i] <= key
    &&& forall|i: int| n <= i < keys.len() ==> #[trigger] keys[i] > key
}

pub open spec fn keys_ascend(keys: Seq<u64>) -> bool {
    forall|i: int, j: int| 0 <= i < j < keys.len() ==> #[trigger] keys[i] < #[trigger] keys[j]
}

impl BlockIndex {
    /// The index fits a mapping of `len` bytes.
    pub open spec fn fits(&self, len: nat) -> bool {
        &&& self.offsets@.len() == self.first_keys@.len() + 1
        &&& self.heap() <= len <= usize::MAX
        &&& keys_ascend(self.first_keys@)
        &&& forall|i: int|
            0 <= i < self.first_keys@.len() ==> self.blocks_at + #[trigger] self.offsets@[i] + 12
                <= len
        &&& forall|i: int|
            0 <= i < self.offsets@.len() ==> self.blocks_at + #[trigger] self.offsets@[i] <= len
    }

    /// Heap held by the offsets and first keys.
    pub open spec fn heap(&self) -> nat {
        (self.offsets@.len() + self.first_keys@.len()) * 8
    }

    pub fn heap_bytes(&self) -> (n: u64)
        requires
            exists|len: nat| #[trigger] self.fits(len),
        ensures
            n == self.heap(),
    {
        (self.offsets.len() as u64 + self.first_keys.len() as u64) * 8
    }

    /// This is the index of the payload at `start`.
    pub open spec fn describes(&self, data: Seq<u8>, start: int) -> bool {
        let blocks = claimed_blocks(data, start);
        &&& self.blocks_at == start + table_len(data, start)
        &&& self.count == u64_at(data, start)
        &&& self.offsets@.len() == blocks + 1
        &&& forall|i: int|
            0 <= i <= blocks ==> #[trigger] self.offsets@[i] == offset_at(data, start, i)
        &&& self.first_keys@.len() == blocks
        &&& forall|i: int|
            0 <= i < blocks ==> #[trigger] self.first_keys@[i] == first_key_at(data, start, i)
    }

    /// Parses the payload at `start..end` of the mapping `data`.
    pub fn parse(data: &[u8], start: usize, end: usize) -> (r: Result<BlockIndex, BlockError>)
        ensures
            match r {
                Err(e) => parse_error(data@, start as int, end as int) == Some(e),
                Ok(index) => parse_error(data@, start as int, end as int) is None
                    && index.describes(data@, start as int) && index.fits(data@.len()),
            },
    {
        let ghost d = data@;
        let ghost s = start as int;
        if start > end || end > data.len() {
            return Err(BlockError::OutsideMapping);
        }
        let n: usize = end - start;
        if n < 16 {
            return Err(BlockError::Truncated);
        }
        let count: u64 = get_u64_le(data, start);
        let claimed: u64 = get_u64_le(data, start + 8);
        // Compared this way round so a corrupt block count cannot overflow.
        if claimed as u128 + 1 > ((n - 16) / 8) as u128 {
            return Err(BlockError::NoRoomForOffsets);
        }
        let blocks: usize = claimed as usize;
        let table: usize = 16 + (blocks + 1) * 8;
        let mut offsets: Vec<u64> = Vec::new();
        let mut i: usize = 0;
        while i <= blocks
            invariant
                i <= blocks + 1,
                blocks == claimed_blocks(d, s),
                table == table_len(d, s),
                table <= n,
                n == end - start,
                end <= d.len(),
                d == data@,
                s == start,
                offsets.len() == i,
                forall|j: int| 0 <= j < i ==> #[trigger] offsets@[j] == offset_at(d, s, j),
            decreases blocks + 1 - i,
        {
            let o: u64 = get_u64_le(data, start + 16 + i * 8);
            assert(o == offset_at(d, s, i as int));
            offsets.push(o);
            i += 1;
        }
        if offsets[blocks] as u128 != (n - table) as u128 {
            return Err(BlockError::LengthMismatch);
        }
        let mut i: usize = 0;
        while i < blocks
            invariant
                i <= blocks,
                blocks == claimed_blocks(d, s),
                offsets.len() == blocks + 1,
                forall|j: int|
                    0 <= j <= blocks ==> #[trigger] offsets@[j] == offset_at(d, s, j),
                forall|j: int|
                    0 <= j < i ==> offset_at(d, s, j) < #[trigger] offset_at(d, s, j + 1),
                table == table_len(d, s),
                s == start,
                d == data@,
                start <= end <= d.len(),
                table <= end - start,
                offset_at(d, s, blocks as int) == end - start - table,
            decreases blocks - i,
        {
            if offsets[i] >= offsets[i + 1] {
                assert(offset_at(d, s, i as int) >= offset_at(d, s, i + 1));
                return Err(BlockError::OffsetsNotIncreasing);
            }
            i += 1;
        }
        proof {
            Self::offsets_stay_inside(d, s, blocks as int);
        }
        let blocks_at: usize = start + table;
        let mut first_keys: Vec<u64> = Vec::new();
        let mut i: usize = 0;
        while i < blocks
            invariant
                i <= blocks,
                blocks == claimed_blocks(d, s),
                offsets.len() == blocks + 1,
                forall|j: int|
                    0 <= j <= blocks ==> #[trigger] offsets@[j] == offset_at(d, s, j),
                forall|j: int|
                    0 <= j < blocks ==> offset_at(d, s, j) < #[trigger] offset_at(d, s, j + 1),
                forall|j: int|
                    0 <= j <= blocks ==> #[trigger] offset_at(d, s, j) <= offset_at(
                        d,
                        s,
                        blocks as int,
                    ),
                forall|j: int|
                    0 <= j < i ==> #[trigger] offset_at(d, s, j + 1) - offset_at(d, s, j) >= 12,
                first_keys.len() == i,
                forall|j: int|
                    0 <= j < i ==> #[trigger] first_keys@[j] == first_key_at(d, s, j),
                table == table_len(d, s),
                s == start,
                d == data@,
                start <= end <= d.len(),
                blocks_at == start + table,
                table <= end - start,
                offset_at(d, s, blocks as int) == end - start - table,
            decreases blocks - i,
        {
            proof {
                assert(offset_at(d, s, i as int) < offset_at(d, s, i + 1));
                assert(offset_at(d, s, i + 1) <= offset_at(d, s, blocks as int));
            }
            if offsets[i + 1] - offsets[i] < 12 {
                assert(offset_at(d, s, i + 1) - offset_at(d, s, i as int) < 12);
                return Err(BlockError::BlockTooShort);
            }
            let at: usize = blocks_at + offsets[i] as usize;
            let key: u64 = get_u64_le(data, at);
            assert(key == first_key_at(d, s, i as int));
            first_keys.push(key);
            i += 1;
        }
        let mut i: usize = 1;
        while i < blocks
            invariant
                1 <= i,
                i <= blocks || blocks == 0,
                first_keys.len() == blocks,
                blocks == claimed_blocks(d, s),
                forall|j: int|
                    0 <= j < blocks ==> #[trigger] first_keys@[j] == first_key_at(d, s, j),
                forall|j: int|
                    0 <= j < i - 1 ==> first_key_at(d, s, j) < #[trigger] first_key_at(d, s, j + 1),
                s == start,
                d == data@,
                start <= end <= d.len(),
                table == table_len(d, s),
                table <= end - start,
                offset_at(d, s, blocks as int) == end - start - table,
                forall|j: int|
                    0 <= j < blocks ==> offset_at(d, s, j) < #[trigger] offset_at(d, s, j + 1),
                forall|j: int|
                    0 <= j < blocks ==> #[trigger] offset_at(d, s, j + 1) - offset_at(d, s, j)
                        >= 12,
            decreases blocks - i,
        {
            if first_keys[i - 1] >= first_keys[i] {
                assert(first_key_at(d, s, i - 1) >= first_key_at(d, s, i - 1 + 1));
                return Err(BlockError::KeysNotSorted);
            }
            proof {
                assert(first_key_at(d, s, i - 1) < first_key_at(d, s, i - 1 + 1));
            }
            i += 1;
        }
        let index = BlockIndex { blocks_at, count, offsets, first_keys };
        proof {
            assert(parse_error(d, s, end as int) is None);
            adjacent_keys_ascend(index.first_keys@, |j: int| first_key_at(d, s, j));
            Self::offsets_apart(d, s, blocks as int);
            assert forall|j: int|
                0 <= j < index.first_keys@.len() implies index.blocks_at + #[trigger] index.offsets@[j]
                    + 12 <= d.len() by {
                assert(offset_at(d, s, j + 1) - offset_at(d, s, j) >= 12);
                assert(offset_at(d, s, j + 1) <= offset_at(d, s, blocks as int));
            }
        }
        Ok(index)
    }

    proof fn offsets_stay_inside(d: Seq<u8>, s: int, blocks: int)
        requires
            0 <= blocks,
            forall|j: int| 0 <= j < blocks ==> offset_at(d, s, j) < #[trigger] offset_at(d, s, j + 1),
        ensures
            forall|j: int|
                0 <= j <= blocks ==> #[trigger] offset_at(d, s, j) <= offset_at(d, s, blocks),
        decreases blocks,
    {
        if blocks > 0 {
            Self::offsets_stay_inside(d, s, blocks - 1);
            assert(offset_at(d, s, blocks - 1) < offset_at(d, s, blocks - 1 + 1));
        }
    }

    proof fn offsets_apart(d: Seq<u8>, s: int, blocks: int)
        requires
            0 <= blocks,
            forall|j: int|
                0 <= j < blocks ==> #[trigger] offset_at(d, s, j + 1) - offset_at(d, s, j) >= 12,
        ensures
            offset_at(d, s, blocks) >= 12 * blocks,
        decreases blocks,
    {
        if blocks > 0 {
            Self::offsets_apart(d, s, blocks - 1);
            assert(offset_at(d, s, blocks - 1 + 1) - offset_at(d, s, blocks - 1) >= 12);
        }
    }

    /// How many blocks start at or before `key`.
    fn blocks_at_most(&self, key: u64) -> (n: usize)
        requires
            keys_ascend(self.first_keys@),
        ensures
            keys_at_most(self.first_keys@, key, n as int),
    {
        let mut lo: usize = 0;
        let mut hi: usize = self.first_keys.len();
        while lo < hi
            invariant
                lo <= hi <= self.first_keys.len(),
                keys_ascend(self.first_keys@),
                forall|i: int| 0 <= i < lo ==> #[trigger] self.first_keys@[i] <= key,
                forall|i: int|
                    hi <= i < self.first_keys@.len() ==> #[trigger] self.first_keys@[i] > key,
            decreases hi - lo,
        {
            let mid: usize = lo + (hi - lo) / 2;
            if self.first_keys[mid] <= key {
                lo = mid + 1;
            } else {
                hi = mid;
            }
        }
        lo
    }

    /// The first `limit` values recorded for `key`: those of the one block that
    /// can hold it. Where no block can, or that block says nothing of the key,
    /// none; `None` where a record that had to be read is malformed.
    pub open spec fn found(&self, data: Seq<u8>, key: u64, limit: nat) -> Option<Seq<u64>> {
        let n = choose|n: int| keys_at_most(self.first_keys@, key, n);
        if n == 0 {
            Some(Seq::empty())
        } else {
            let at = self.blocks_at + self.offsets@[n - 1];
            let end = self.blocks_at + self.offsets@[n];
            find_in(
                data,
                at + 12,
                end,
                u32_at(data, at + 8) as nat,
                true,
                self.first_keys@[n - 1],
                key,
                limit,
            )
        }
    }

    /// A lookup gives no more values than it was asked for.
    pub proof fn found_is_limited(&self, data: Seq<u8>, key: u64, limit: nat)
        ensures
            self.found(data, key, limit) matches Some(v) ==> v.len() <= limit,
    {
        let n = choose|n: int| keys_at_most(self.first_keys@, key, n);
        if n != 0 {
            let at = self.blocks_at + self.offsets@[n - 1];
            let end = self.blocks_at + self.offsets@[n];
            find_in_is_limited(
                data,
                at + 12,
                end,
                u32_at(data, at + 8) as nat,
                true,
                self.first_keys@[n - 1],
                key,
                limit,
            );
        }
    }

    /// The first `limit` values recorded for `key`.
    pub fn find(&self, data: &[u8], key: u64, limit: usize) -> (r: Option<Vec<u64>>)
        requires
            self.fits(data@.len()),
        ensures
            match r {
                Some(v) => self.found(data@, key, limit as nat) == Some(v@) && v@.len() <= limit,
                None => self.found(data@, key, limit as nat) is None,
            },
    {
        proof {
            self.found_is_limited(data@, key, limit as nat);
        }
        let after: usize = self.blocks_at_most(key);
        proof {
            only_one_count(self.first_keys@, key, after as int);
        }
        if after == 0 {
            return Some(Vec::new());
        }
        let len: usize = data.len();
        proof {
            assert(self.blocks_at + self.offsets@[after - 1] + 12 <= len);
            assert(self.blocks_at + self.offsets@[after as int] <= len);
        }
        let at: usize = self.blocks_at + self.offsets[after - 1] as usize;
        let end: usize = self.blocks_at + self.offsets[after] as usize;
        let records: u32 = get_u32_le(data, at + 8);
        let mut cur: u64 = self.first_keys[after - 1];
        let mut i: usize = at + 12;
        let mut rec: u32 = 0;
        let ghost want = self.found(data@, key, limit as nat);
        while rec < records
            invariant
                rec <= records,
                i <= len,
                len == data@.len(),
                want == find_in(
                    data@,
                    i as int,
                    end as int,
                    (records - rec) as nat,
                    rec == 0,
                    cur,
                    key,
                    limit as nat,
                ),
                want == self.found(data@, key, limit as nat),
                want matches Some(v) ==> v.len() <= limit,
            decreases records - rec,
        {
            if rec > 0 {
                match get_varint(data, i) {
                    Ok((gap, next)) => {
                        match cur.checked_add(gap) {
                            Some(sum) => {
                                cur = sum;
                                i = next;
                            },
                            None => {
                                return None;
                            },
                        }
                    },
                    Err(_) => {
                        return None;
                    },
                }
            }
            let k: u64 = match get_varint(data, i) {
                Ok((k, next)) => {
                    i = next;
                    k
                },
                Err(_) => {
                    return None;
                },
            };
            if cur > key {
                return Some(Vec::new());
            }
            if cur == key {
                // Stop *decoding*, not just stop pushing: on a very wide record
                // the rest would be varints thrown away.
                let take: u64 = if k <= limit as u64 {
                    k
                } else {
                    limit as u64
                };
                return match take_values(data, i, take) {
                    Some((values, _)) => Some(values),
                    None => None,
                };
            }
            match skip_values(data, i, k) {
                Some(next) => {
                    if next > end {
                        return None;
                    }
                    i = next;
                },
                None => {
                    return None;
                },
            }
            rec += 1;
        }
        Some(Vec::new())
    }
}

proof fn only_one_count(keys: Seq<u64>, key: u64, n: int)
    requires
        keys_at_most(keys, key, n),
    ensures
        (choose|m: int| keys_at_most(keys, key, m)) == n,
{
    let m = choose|m: int| keys_at_most(keys, key, m);
    assert(keys_at_most(keys, key, m));
    if m < n {
        assert(keys[m] <= key);
        assert(keys[m] > key);
    }
    if n < m {
        assert(keys[n] <= key);
        assert(keys[n] > key);
    }
}

proof fn adjacent_keys_ascend(keys: Seq<u64>, at: spec_fn(int) -> u64)
    requires
        forall|j: int| 0 <= j < keys.len() ==> #[trigger] keys[j] == at(j),
        forall|j: int| 0 <= j < keys.len() - 1 ==> at(j) < #[trigger] at(j + 1),
    ensures
        keys_ascend(keys),
    decreases keys.len(),
{
    if keys.len() > 0 {
        let front = keys.drop_last();
        assert forall|j: int| 0 <= j < front.len() implies #[trigger] front[j] == at(j) by {
            assert(keys[j] == at(j));
        }
        adjacent_keys_ascend(front, at);
        let last = keys.len() - 1;
        assert forall|i: int, j: int| 0 <= i < j < keys.len() implies #[trigger] keys[i]
            < #[trigger] keys[j] by {
            if j == last {
                assert(at(last - 1) < at(last - 1 + 1));
                assert(keys[last - 1] < keys[last]);
                if i < last - 1 {
                    assert(front[i] < front[last - 1]);
                }
            } else {
                assert(front[i] < front[j]);
            }
        }
    }
}

/// The `k` values at `i`, and the offset past them.
pub fn take_values(data: &[u8], i: usize, k: u64) -> (r: Option<(Vec<u64>, usize)>)
    requires
        i <= data@.len(),
    ensures
        match r {
            Some((values, next)) => read_values(data@, i as int, k as nat, 0) == Some(
                (values@, next as int),
            ) && i <= next <= data@.len(),
            None => read_values(data@, i as int, k as nat, 0) is None,
        },
{
    let ghost whole = read_values(data@, i as int, k as nat, 0);
    let len: usize = data.len();
    let mut values: Vec<u64> = Vec::new();
    let mut at: usize = i;
    let mut prev: u64 = 0;
    let mut j: u64 = 0;
    proof {
        prepend_nothing(whole);
    }
    while j < k
        invariant
            j <= k,
            i <= at <= len,
            len == data@.len(),
            whole == prepended(
                values@,
                read_values(data@, at as int, (k - j) as nat, prev),
            ),
            whole == read_values(data@, i as int, k as nat, 0),
        decreases k - j,
    {
        match get_varint(data, at) {
            Ok((gap, next)) => {
                match prev.checked_add(gap) {
                    Some(v) => {
                        proof {
                            prepend_one(
                                values@,
                                v,
                                read_values(data@, next as int, (k - j - 1) as nat, v),
                            );
                        }
                        values.push(v);
                        prev = v;
                        at = next;
                    },
                    None => {
                        return None;
                    },
                }
            },
            Err(_) => {
                return None;
            },
        }
        j += 1;
    }
    assert(values@ + Seq::<u64>::empty() =~= values@);
    Some((values, at))
}

/// The offset past the `k` values at `i`.
pub fn skip_values(data: &[u8], i: usize, k: u64) -> (r: Option<usize>)
    requires
        i <= data@.len(),
    ensures
        match r {
            Some(next) => read_values(data@, i as int, k as nat, 0) is Some && read_values(
                data@,
                i as int,
                k as nat,
                0,
            )->Some_0.1 == next && i <= next <= data@.len(),
            None => read_values(data@, i as int, k as nat, 0) is None,
        },
{
    let ghost whole = read_values(data@, i as int, k as nat, 0);
    let ghost mut values: Seq<u64> = Seq::empty();
    let len: usize = data.len();
    let mut at: usize = i;
    let mut prev: u64 = 0;
    let mut j: u64 = 0;
    proof {
        prepend_nothing(whole);
    }
    while j < k
        invariant
            j <= k,
            i <= at <= len,
            len == data@.len(),
            whole == prepended(values, read_values(data@, at as int, (k - j) as nat, prev)),
            whole == read_values(data@, i as int, k as nat, 0),
        decreases k - j,
    {
        match get_varint(data, at) {
            Ok((gap, next)) => {
                match prev.checked_add(gap) {
                    Some(v) => {
                        proof {
                            prepend_one(
                                values,
                                v,
                                read_values(data@, next as int, (k - j - 1) as nat, v),
                            );
                            values = values.push(v);
                        }
                        prev = v;
                        at = next;
                    },
                    None => {
                        return None;
                    },
                }
            },
            Err(_) => {
                return None;
            },
        }
        j += 1;
    }
    Some(at)
}

/// `rest` with `done` in front of its values.
pub open spec fn prepended(done: Seq<u64>, rest: Option<(Seq<u64>, int)>) -> Option<
    (Seq<u64>, int),
> {
    match rest {
        Some((values, end)) => Some((done + values, end)),
        None => None,
    }
}

proof fn prepend_nothing(rest: Option<(Seq<u64>, int)>)
    ensures
        prepended(Seq::empty(), rest) == rest,
{
    if let Some((values, end)) = rest {
        assert(Seq::<u64>::empty() + values =~= values);
    }
}

proof fn prepend_one(done: Seq<u64>, v: u64, rest: Option<(Seq<u64>, int)>)
    ensures
        prepended(done, prepended(seq![v], rest)) == prepended(done.push(v), rest),
{
    if let Some((values, end)) = rest {
        assert(done + (seq![v] + values) =~= done.push(v) + values);
    }
}

// --- reading everything, in order -----------------------------------------------

/// A place in a walk over every entry of a blocked index.
#[derive(Debug, Clone, Copy)]
pub struct BlockCursor {
    /// The next block to open.
    pub block: usize,
    /// Where the next varint is.
    pub at: usize,
    /// Records left in the open block.
    pub records: u32,
    pub key: u64,
    /// Whether the next record is the first of its block.
    pub first: bool,
    /// Values left in the open record.
    pub values: u64,
    pub value: u64,
}

impl BlockIndex {
    /// The entries from a place on, up to the first malformed byte.
    pub open spec fn entries_from(&self, data: Seq<u8>, c: BlockCursor) -> Seq<(u64, u64)> {
        self.entries_at(
            data,
            c.block as int,
            c.at as int,
            c.records as nat,
            c.key,
            c.first,
            c.values as nat,
            c.value,
        )
    }

    pub open spec fn entries_at(
        &self,
        data: Seq<u8>,
        block: int,
        at: int,
        records: nat,
        key: u64,
        first: bool,
        values: nat,
        value: u64,
    ) -> Seq<(u64, u64)>
        decreases self.first_keys@.len() - block, records, values,
    {
        if values > 0 {
            match varint_at(data, at) {
                None => Seq::empty(),
                Some((gap, next)) => if value + gap > u64::MAX {
                    Seq::empty()
                } else {
                    let v = (value + gap) as u64;
                    seq![(key, v)] + self.entries_at(
                        data,
                        block,
                        next,
                        records,
                        key,
                        first,
                        (values - 1) as nat,
                        v,
                    )
                },
            }
        } else if records == 0 {
            if 0 <= block < self.first_keys@.len() {
                let b = self.blocks_at + self.offsets@[block];
                self.entries_at(
                    data,
                    block + 1,
                    b + 12,
                    u32_at(data, b + 8) as nat,
                    self.first_keys@[block],
                    true,
                    0,
                    0,
                )
            } else {
                Seq::empty()
            }
        } else {
            match read_key(data, at, first, key) {
                None => Seq::empty(),
                Some((k, i)) => match varint_at(data, i) {
                    None => Seq::empty(),
                    Some((n, next)) => self.entries_at(
                        data,
                        block,
                        next,
                        (records - 1) as nat,
                        k,
                        false,
                        n as nat,
                        0,
                    ),
                },
            }
        }
    }

    /// Every entry, in order.
    pub open spec fn entries(&self, data: Seq<u8>) -> Seq<(u64, u64)> {
        self.entries_at(data, 0, 0, 0, 0, true, 0, 0)
    }

    /// The start of the walk.
    pub fn start(&self) -> (c: BlockCursor)
        ensures
            forall|data: Seq<u8>| #[trigger] self.entries_from(data, c) == self.entries(data),
    {
        BlockCursor { block: 0, at: 0, records: 0, key: 0, first: true, values: 0, value: 0 }
    }

    /// The next entry, with the cursor moved past it. Decoded block by block
    /// with nothing buffered.
    pub fn next(&self, data: &[u8], c: &mut BlockCursor) -> (r: Option<(u64, u64)>)
        requires
            self.fits(data@.len()),
        ensures
            (r is None) == (self.entries_from(data@, *old(c)).len() == 0),
            r matches Some(e) ==> e == self.entries_from(data@, *old(c)).first()
                && self.entries_from(data@, *final(c)) == self.entries_from(
                data@,
                *old(c),
            ).drop_first(),
    {
        let ghost whole = self.entries_from(data@, *c);
        let len: usize = data.len();
        loop
            invariant
                self.fits(data@.len()),
                len == data@.len(),
                self.entries_from(data@, *c) == whole,
                whole == self.entries_from(data@, *old(c)),
            decreases self.first_keys@.len() - c.block, c.records, c.values,
        {
            if c.values > 0 {
                match get_varint(data, c.at) {
                    Ok((gap, next)) => {
                        match c.value.checked_add(gap) {
                            Some(v) => {
                                c.at = next;
                                c.value = v;
                                c.values = c.values - 1;
                                proof {
                                    let rest = self.entries_from(data@, *c);
                                    assert(whole == seq![(c.key, v)] + rest);
                                    assert(whole.drop_first() =~= rest);
                                }
                                return Some((c.key, v));
                            },
                            None => {
                                return None;
                            },
                        }
                    },
                    Err(_) => {
                        return None;
                    },
                }
            }
            if c.records == 0 {
                if c.block >= self.first_keys.len() {
                    return None;
                }
                proof {
                    assert(self.blocks_at + self.offsets@[c.block as int] + 12 <= len);
                }
                let b: usize = self.blocks_at + self.offsets[c.block] as usize;
                c.key = self.first_keys[c.block];
                c.records = get_u32_le(data, b + 8);
                c.at = b + 12;
                c.first = true;
                c.value = 0;
                c.block = c.block + 1;
                continue;
            }
            if !c.first {
                match get_varint(data, c.at) {
                    Ok((gap, next)) => {
                        match c.key.checked_add(gap) {
                            Some(key) => {
                                c.key = key;
                                c.at = next;
                            },
                            None => {
                                return None;
                            },
                        }
                    },
                    Err(_) => {
                        return None;
                    },
                }
            }
            match get_varint(data, c.at) {
                Ok((k, next)) => {
                    c.at = next;
                    c.values = k;
                    c.value = 0;
                    c.records = c.records - 1;
                    c.first = false;
                },
                Err(_) => {
                    return None;
                },
            }
        }
    }
}

// --- what is written reads back ------------------------------------------------------

/// `data` has `bytes` at `i`.
pub open spec fn holds_at(data: Seq<u8>, i: int, bytes: Seq<u8>) -> bool {
    &&& 0 <= i
    &&& i + bytes.len() <= data.len()
    &&& data.subrange(i, i + bytes.len()) == bytes
}

pub proof fn holds_parts(data: Seq<u8>, i: int, a: Seq<u8>, b: Seq<u8>)
    requires
        holds_at(data, i, a + b),
    ensures
        holds_at(data, i, a),
        holds_at(data, i + a.len(), b),
{
    let whole = data.subrange(i, i + (a + b).len());
    assert(whole.subrange(0, a.len() as int) =~= a);
    assert(data.subrange(i, i + a.len()) =~= whole.subrange(0, a.len() as int));
    assert(whole.subrange(a.len() as int, whole.len() as int) =~= b);
    assert(data.subrange(i + a.len(), i + a.len() + b.len()) =~= whole.subrange(
        a.len() as int,
        whole.len() as int,
    ));
}

pub proof fn varint_is_there(data: Seq<u8>, i: int, v: u64)
    requires
        holds_at(data, i, varint(v as nat)),
    ensures
        varint_at(data, i) == Some((v, i + varint(v as nat).len())),
{
    let w = varint(v as nat);
    let before = data.take(i);
    let rest = data.skip(i + w.len());
    assert(data =~= before + w + rest) by {
        assert(data.subrange(i, i + w.len()) == w);
    }
    varint_reads_back(before, v, rest);
}

/// Written values are read.
pub proof fn values_are_there(data: Seq<u8>, i: int, values: Seq<u64>, prev: u64)
    requires
        holds_at(data, i, gap_bytes(values, prev)),
        values_ascend(values),
        values.len() > 0 ==> prev <= values[0],
    ensures
        read_values(data, i, values.len(), prev) == Some(
            (values, i + gap_bytes(values, prev).len()),
        ),
    decreases values.len(),
{
    if values.len() > 0 {
        let gap = (values[0] - prev) as u64;
        let rest = values.skip(1);
        let head = varint(gap as nat);
        holds_parts(data, i, head, gap_bytes(rest, values[0]));
        varint_is_there(data, i, gap);
        assert forall|a: int, b: int| 0 <= a <= b < rest.len() implies #[trigger] rest[a]
            <= #[trigger] rest[b] by {
            assert(values[a + 1] <= values[b + 1]);
        }
        if rest.len() > 0 {
            assert(values[0] <= values[1]);
        }
        values_are_there(data, i + head.len(), rest, values[0]);
        assert(seq![values[0]] + rest =~= values);
    } else {
        assert(values =~= Seq::empty());
    }
}

/// The first values of a record are read without the rest.
proof fn first_values_are_there(
    data: Seq<u8>,
    i: int,
    values: Seq<u64>,
    prev: u64,
    n: nat,
)
    requires
        holds_at(data, i, gap_bytes(values, prev)),
        values_ascend(values),
        values.len() > 0 ==> prev <= values[0],
        n <= values.len(),
    ensures
        read_values(data, i, n, prev) matches Some((got, _)) && got == values.take(n as int),
    decreases n,
{
    if n > 0 {
        let gap = (values[0] - prev) as u64;
        let rest = values.skip(1);
        let head = varint(gap as nat);
        holds_parts(data, i, head, gap_bytes(rest, values[0]));
        varint_is_there(data, i, gap);
        assert forall|a: int, b: int| 0 <= a <= b < rest.len() implies #[trigger] rest[a]
            <= #[trigger] rest[b] by {
            assert(values[a + 1] <= values[b + 1]);
        }
        if rest.len() > 0 {
            assert(values[0] <= values[1]);
        }
        first_values_are_there(data, i + head.len(), rest, values[0], (n - 1) as nat);
        assert(seq![values[0]] + rest.take(n - 1) =~= values.take(n as int));
    } else {
        assert(values.take(0) =~= Seq::empty());
    }
}

/// The values `recs` has for `key`.
pub open spec fn values_for(recs: Seq<Rec>, key: u64) -> Seq<u64>
    decreases recs.len(),
{
    if recs.len() == 0 {
        Seq::empty()
    } else if recs[0].key == key {
        recs[0].values
    } else {
        values_for(recs.skip(1), key)
    }
}

/// The first `limit` of `values`.
pub open spec fn at_most(values: Seq<u64>, limit: nat) -> Seq<u64> {
    if values.len() <= limit {
        values
    } else {
        values.take(limit as int)
    }
}

proof fn recs_ascend_rest(recs: Seq<Rec>)
    requires
        recs_ascend(recs),
        recs.len() > 0,
    ensures
        recs_ascend(recs.skip(1)),
{
    let rest = recs.skip(1);
    assert forall|i: int, j: int| 0 <= i < j < rest.len() implies (#[trigger] rest[i]).key < (
    #[trigger] rest[j]).key by {
        assert(recs[i + 1].key < recs[j + 1].key);
    }
    assert forall|i: int| 0 <= i < rest.len() implies values_ascend((#[trigger] rest[i]).values)
        && rest[i].values.len() > 0 && rest[i].values.len() <= u64::MAX by {
        assert(values_ascend(recs[i + 1].values));
    }
}

/// A key smaller than every record has no values.
proof fn no_values_below(recs: Seq<Rec>, key: u64)
    requires
        forall|i: int| 0 <= i < recs.len() ==> (#[trigger] recs[i]).key > key,
    ensures
        values_for(recs, key) == Seq::<u64>::empty(),
    decreases recs.len(),
{
    if recs.len() > 0 {
        assert(recs[0].key > key);
        let rest = recs.skip(1);
        assert forall|i: int| 0 <= i < rest.len() implies (#[trigger] rest[i]).key > key by {
            assert(recs[i + 1].key > key);
        }
        no_values_below(rest, key);
    }
}

/// Searching written records finds what was recorded for the key.
proof fn find_is_there(
    data: Seq<u8>,
    i: int,
    end: int,
    recs: Seq<Rec>,
    first: bool,
    prev: u64,
    want: u64,
    limit: nat,
)
    requires
        recs_ascend(recs),
        first ==> recs.len() > 0 && prev == recs[0].key && holds_at(data, i, body_bytes(recs)) && i
            + body_bytes(recs).len() <= end,
        !first ==> (recs.len() > 0 ==> prev < recs[0].key) && holds_at(
            data,
            i,
            tail_bytes(recs, prev),
        ) && i + tail_bytes(recs, prev).len() <= end,
    ensures
        find_in(data, i, end, recs.len(), first, prev, want, limit) == Some(
            at_most(values_for(recs, want), limit),
        ),
    decreases recs.len(),
{
    if recs.len() == 0 {
        assert(at_most(values_for(recs, want), limit) =~= Seq::empty());
    } else {
        let r = recs[0];
        let rest = recs.skip(1);
        let tail = tail_bytes(rest, r.key);
        let body = rec_bytes(r.values);
        let count = varint(r.values.len());
        let gaps = gap_bytes(r.values, 0);
        assert(values_ascend(r.values));
        let at = if first {
            holds_parts(data, i, body, tail);
            i
        } else {
            let gap = (r.key - prev) as u64;
            let head = varint(gap as nat);
            assert(tail_bytes(recs, prev) =~= head + (body + tail));
            holds_parts(data, i, head, body + tail);
            varint_is_there(data, i, gap);
            holds_parts(data, i + head.len(), body, tail);
            i + head.len()
        };
        assert(read_key(data, i, first, prev) == Some((r.key, at)));
        holds_parts(data, at, count, gaps);
        varint_is_there(data, at, r.values.len() as u64);
        let next = at + count.len();
        values_are_there(data, next, r.values, 0);
        let after = next + gaps.len();
        if r.key > want {
            assert forall|j: int| 0 <= j < recs.len() implies (#[trigger] recs[j]).key > want by {
                if j > 0 {
                    assert(recs[0].key < recs[j].key);
                }
            }
            no_values_below(recs, want);
            assert(at_most(values_for(recs, want), limit) =~= Seq::empty());
        } else if r.key == want {
            let n = if r.values.len() <= limit {
                r.values.len()
            } else {
                limit
            };
            first_values_are_there(data, next, r.values, 0, n);
            assert(r.values.take(r.values.len() as int) =~= r.values);
        } else {
            recs_ascend_rest(recs);
            if rest.len() > 0 {
                assert(recs[0].key < recs[1].key);
            }
            assert(after == at + body.len());
            find_is_there(data, after, end, rest, false, r.key, want, limit);
        }
    }
}

/// Records before block `i`.
pub open spec fn recs_before(blocks: Seq<Seq<Rec>>, i: int) -> nat {
    all_recs(blocks.take(i)).len()
}

/// Record `j` of block `i` is where the blocks before it end.
proof fn rec_is_there(blocks: Seq<Seq<Rec>>, i: int, j: int)
    requires
        0 <= i < blocks.len(),
        0 <= j < blocks[i].len(),
    ensures
        recs_before(blocks, i) + j < all_recs(blocks).len(),
        all_recs(blocks)[recs_before(blocks, i) + j] == blocks[i][j],
    decreases blocks.len(),
{
    let front = blocks.drop_last();
    if i == blocks.len() - 1 {
        assert(blocks.take(i) =~= front);
    } else {
        rec_is_there(front, i, j);
        assert(front.take(i) =~= blocks.take(i));
        assert(front[i] == blocks[i]);
    }
}

proof fn all_recs_split(blocks: Seq<Seq<Rec>>, i: int)
    requires
        0 <= i <= blocks.len(),
    ensures
        all_recs(blocks) == all_recs(blocks.take(i)) + all_recs(blocks.skip(i)),
    decreases blocks.len() - i,
{
    if i == blocks.len() {
        assert(blocks.take(i) =~= blocks);
        assert(blocks.skip(i) =~= Seq::empty());
        assert(all_recs(blocks) =~= all_recs(blocks) + all_recs(Seq::empty()));
    } else {
        let front = blocks.drop_last();
        all_recs_split(front, i);
        assert(front.take(i) =~= blocks.take(i));
        assert(blocks.skip(i).drop_last() =~= front.skip(i));
        assert(blocks.skip(i).last() == blocks.last());
        assert(all_recs(blocks) =~= all_recs(blocks.take(i)) + all_recs(blocks.skip(i)));
    }
}

proof fn all_recs_first(blocks: Seq<Seq<Rec>>)
    requires
        blocks.len() > 0,
    ensures
        all_recs(blocks) == blocks[0] + all_recs(blocks.skip(1)),
{
    all_recs_split(blocks, 1);
    let one = blocks.take(1);
    assert(one.drop_last() =~= Seq::empty());
    assert(all_recs(one.drop_last()) =~= Seq::<Rec>::empty());
    assert(all_recs(one) =~= blocks[0]);
}

/// A block of an ascending index is ascending.
proof fn block_ascends(blocks: Seq<Seq<Rec>>, i: int)
    requires
        0 <= i < blocks.len(),
        recs_ascend(all_recs(blocks)),
    ensures
        recs_ascend(blocks[i]),
{
    let b = blocks[i];
    let at = recs_before(blocks, i) as int;
    assert forall|x: int, y: int| 0 <= x < y < b.len() implies (#[trigger] b[x]).key < (
    #[trigger] b[y]).key by {
        rec_is_there(blocks, i, x);
        rec_is_there(blocks, i, y);
        assert(all_recs(blocks)[at + x].key < all_recs(blocks)[at + y].key);
    }
    assert forall|x: int| 0 <= x < b.len() implies values_ascend((#[trigger] b[x]).values)
        && b[x].values.len() > 0 && b[x].values.len() <= u64::MAX by {
        rec_is_there(blocks, i, x);
        assert(values_ascend(all_recs(blocks)[at + x].values));
    }
}

/// Blocks of an ascending index come in key order.
proof fn blocks_in_order(blocks: Seq<Seq<Rec>>, i: int, j: int, x: int)
    requires
        0 <= i < j < blocks.len(),
        0 <= x < blocks[i].len(),
        blocks_fit(blocks),
        recs_ascend(all_recs(blocks)),
    ensures
        blocks[i][x].key < blocks[j][0].key,
{
    assert(1 <= blocks[j].len());
    rec_is_there(blocks, i, x);
    rec_is_there(blocks, j, 0);
    recs_before_grows(blocks, i, j);
    let a = recs_before(blocks, i) + x;
    let b = recs_before(blocks, j) as int;
    assert(all_recs(blocks)[a].key < all_recs(blocks)[b].key);
}

proof fn recs_before_grows(blocks: Seq<Seq<Rec>>, i: int, j: int)
    requires
        0 <= i < j <= blocks.len(),
    ensures
        recs_before(blocks, i) + blocks[i].len() <= recs_before(blocks, j),
    decreases j - i,
{
    if j == i + 1 {
        assert(blocks.take(j).drop_last() =~= blocks.take(i));
    } else {
        recs_before_grows(blocks, i, j - 1);
        assert(blocks.take(j).drop_last() =~= blocks.take(j - 1));
    }
}

/// What a written payload's header and tables say.
proof fn payload_layout(data: Seq<u8>, start: int, count: u64, blocks: Seq<Seq<Rec>>)
    requires
        holds_at(data, start, payload_bytes(count, blocks)),
        blocks_fit(blocks),
    ensures
        u64_at(data, start) == count,
        claimed_blocks(data, start) == blocks.len(),
        payload_bytes(count, blocks).len() == table_len(data, start) + blocks_bytes(blocks).len(),
        holds_at(data, start + table_len(data, start), blocks_bytes(blocks)),
        forall|i: int|
            0 <= i <= blocks.len() ==> #[trigger] offset_at(data, start, i) == block_start(
                blocks,
                i,
            ),
{
    let n = blocks.len();
    let a = le64(count);
    let b = le64(n as u64);
    let o = offset_bytes(blocks, n + 1);
    let body = blocks_bytes(blocks);
    le_len(count as nat, 8);
    le_len(n as u64 as nat, 8);
    offset_bytes_len(blocks, n + 1);
    holds_parts(data, start, a + b + o, body);
    holds_parts(data, start, a + b, o);
    holds_parts(data, start, a, b);
    super::wire::u64_reads_back(data, start, count);
    super::wire::u64_reads_back(data, start + 8, n as u64);
    assert forall|i: int| 0 <= i <= n implies #[trigger] offset_at(data, start, i) == block_start(
        blocks,
        i,
    ) by {
        offset_is_there(blocks, n + 1, i);
        let at = start + 16 + 8 * i;
        assert(data.subrange(at, at + 8) =~= o.subrange(8 * i, 8 * i + 8)) by {
            assert(data.subrange(start + 16, start + 16 + o.len()) == o);
        }
        super::wire::u64_reads_back(data, at, block_start(blocks, i) as u64);
        block_starts_fit(blocks, i);
    }
}

proof fn block_starts_fit(blocks: Seq<Seq<Rec>>, i: int)
    requires
        0 <= i <= blocks.len(),
    ensures
        block_start(blocks, i) <= blocks_bytes(blocks).len(),
    decreases blocks.len() - i,
{
    if i < blocks.len() {
        block_is_there(blocks, i);
    } else {
        assert(blocks.take(i) =~= blocks);
    }
}

/// Block `i` of a written payload is where its offset says.
proof fn block_layout(data: Seq<u8>, start: int, count: u64, blocks: Seq<Seq<Rec>>, i: int)
    requires
        holds_at(data, start, payload_bytes(count, blocks)),
        blocks_fit(blocks),
        0 <= i < blocks.len(),
    ensures
        offset_at(data, start, i + 1) - offset_at(data, start, i) == 12 + body_bytes(
            blocks[i],
        ).len(),
        first_key_at(data, start, i) == blocks[i][0].key,
        u32_at(data, block_at(data, start, i) + 8) == blocks[i].len(),
        holds_at(data, block_at(data, start, i) + 12, body_bytes(blocks[i])),
{
    payload_layout(data, start, count, blocks);
    block_start_next(blocks, i);
    block_is_there(blocks, i);
    let b = blocks[i];
    let at = block_at(data, start, i);
    assert(offset_at(data, start, i) == block_start(blocks, i));
    assert(offset_at(data, start, i + 1) == block_start(blocks, i + 1));
    let base = start + table_len(data, start);
    let all = blocks_bytes(blocks);
    assert(holds_at(data, at, block_bytes(b))) by {
        let s = block_start(blocks, i) as int;
        assert(data.subrange(base, base + all.len()) == all);
        assert(data.subrange(at, at + block_bytes(b).len()) =~= all.subrange(
            s,
            s + block_bytes(b).len(),
        ));
    }
    le_len(b[0].key as nat, 8);
    le_len(b.len() as u32 as nat, 4);
    holds_parts(data, at, le64(b[0].key) + le32(b.len() as u32), body_bytes(b));
    holds_parts(data, at, le64(b[0].key), le32(b.len() as u32));
    super::wire::u64_reads_back(data, at, b[0].key);
    super::wire::u32_reads_back(data, at + 8, b.len() as u32);
}

/// **A written index parses.**
pub proof fn written_index_parses(
    data: Seq<u8>,
    start: int,
    count: u64,
    blocks: Seq<Seq<Rec>>,
)
    requires
        holds_at(data, start, payload_bytes(count, blocks)),
        blocks_fit(blocks),
        recs_ascend(all_recs(blocks)),
    ensures
        parse_error(data, start, start + payload_bytes(count, blocks).len()) is None,
{
    payload_layout(data, start, count, blocks);
    let n = blocks.len() as int;
    assert(blocks.take(n) =~= blocks);
    assert(offset_at(data, start, n) == block_start(blocks, n));
    assert forall|i: int| 0 <= i < n implies offset_at(data, start, i) < #[trigger] offset_at(
        data,
        start,
        i + 1,
    ) && offset_at(data, start, i + 1) - offset_at(data, start, i) >= 12 by {
        block_layout(data, start, count, blocks, i);
    }
    assert forall|i: int| 0 <= i < n - 1 implies first_key_at(data, start, i)
        < #[trigger] first_key_at(data, start, i + 1) by {
        block_layout(data, start, count, blocks, i);
        block_layout(data, start, count, blocks, i + 1);
        assert(1 <= blocks[i].len());
        blocks_in_order(blocks, i, i + 1, 0);
    }
}

proof fn values_for_split(a: Seq<Rec>, b: Seq<Rec>, key: u64)
    ensures
        (forall|i: int| 0 <= i < a.len() ==> (#[trigger] a[i]).key != key) ==> values_for(
            a + b,
            key,
        ) == values_for(b, key),
        (forall|i: int| 0 <= i < b.len() ==> (#[trigger] b[i]).key != key) ==> values_for(
            a + b,
            key,
        ) == values_for(a, key),
    decreases a.len(),
{
    if a.len() == 0 {
        assert(a + b =~= b);
        if forall|i: int| 0 <= i < b.len() ==> (#[trigger] b[i]).key != key {
            values_for_absent(b, key);
        }
    } else {
        let rest = a.skip(1);
        assert((a + b).skip(1) =~= rest + b);
        assert((a + b)[0] == a[0]);
        values_for_split(rest, b, key);
        if forall|i: int| 0 <= i < a.len() ==> (#[trigger] a[i]).key != key {
            assert forall|i: int| 0 <= i < rest.len() implies (#[trigger] rest[i]).key != key by {
                assert(a[i + 1].key != key);
            }
            assert(a[0].key != key);
        }
    }
}

proof fn values_for_absent(recs: Seq<Rec>, key: u64)
    requires
        forall|i: int| 0 <= i < recs.len() ==> (#[trigger] recs[i]).key != key,
    ensures
        values_for(recs, key) == Seq::<u64>::empty(),
    decreases recs.len(),
{
    if recs.len() > 0 {
        let rest = recs.skip(1);
        assert forall|i: int| 0 <= i < rest.len() implies (#[trigger] rest[i]).key != key by {
            assert(recs[i + 1].key != key);
        }
        assert(recs[0].key != key);
        values_for_absent(rest, key);
    }
}

/// A key between the first keys of two blocks is looked up in the first.
proof fn key_is_in_its_block(blocks: Seq<Seq<Rec>>, key: u64, n: int)
    requires
        blocks_fit(blocks),
        recs_ascend(all_recs(blocks)),
        0 <= n <= blocks.len(),
        forall|i: int| 0 <= i < n ==> (#[trigger] blocks[i])[0].key <= key,
        forall|i: int| n <= i < blocks.len() ==> (#[trigger] blocks[i])[0].key > key,
    ensures
        n == 0 ==> values_for(all_recs(blocks), key) == Seq::<u64>::empty(),
        n > 0 ==> values_for(all_recs(blocks), key) == values_for(blocks[n - 1], key),
{
    all_recs_split(blocks, n);
    let low = blocks.take(n);
    let high = blocks.skip(n);
    assert forall|i: int| 0 <= i < all_recs(high).len() implies (#[trigger] all_recs(high)[i]).key
        != key by {
        if n < blocks.len() {
            // The first of them is a block's first key, and they ascend.
            let f = recs_before(blocks, n) as int;
            assert(1 <= blocks[n].len());
            rec_is_there(blocks, n, 0);
            assert(all_recs(blocks)[f + i] == all_recs(high)[i]);
            if i > 0 {
                assert(all_recs(blocks)[f].key < all_recs(blocks)[f + i].key);
            }
        } else {
            assert(high =~= Seq::empty());
        }
    }
    values_for_split(all_recs(low), all_recs(high), key);
    if n == 0 {
        assert(low =~= Seq::empty());
        assert(all_recs(low) =~= Seq::<Rec>::empty());
    } else {
        let front = blocks.take(n - 1);
        assert(low.drop_last() =~= front);
        assert(low.last() == blocks[n - 1]);
        assert forall|i: int| 0 <= i < all_recs(front).len() implies (
        #[trigger] all_recs(front)[i]).key != key by {
            let f = recs_before(blocks, n - 1) as int;
            assert(1 <= blocks[n - 1].len());
            rec_is_there(blocks, n - 1, 0);
            all_recs_split(blocks, n - 1);
            assert(all_recs(blocks)[i] == all_recs(front)[i]);
            assert(all_recs(blocks)[i].key < all_recs(blocks)[f].key);
        }
        values_for_split(all_recs(front), blocks[n - 1], key);
    }
}

/// **A written index answers what was written**: every key, present or absent,
/// gets exactly the values recorded for it.
pub proof fn written_index_finds(
    index: &BlockIndex,
    data: Seq<u8>,
    start: int,
    count: u64,
    blocks: Seq<Seq<Rec>>,
    key: u64,
    limit: nat,
)
    requires
        holds_at(data, start, payload_bytes(count, blocks)),
        blocks_fit(blocks),
        recs_ascend(all_recs(blocks)),
        index.describes(data, start),
        keys_ascend(index.first_keys@),
    ensures
        index.found(data, key, limit) == Some(
            at_most(values_for(all_recs(blocks), key), limit),
        ),
{
    payload_layout(data, start, count, blocks);
    let keys = index.first_keys@;
    assert forall|i: int|
        0 <= i < blocks.len()
    implies (#[trigger] keys[i]) == blocks[i][0].key by {
        block_layout(data, start, count, blocks, i);
    }
    count_exists(keys, key);
    let n = choose|n: int| keys_at_most(keys, key, n);
    assert(keys_at_most(keys, key, n));
    assert forall|i: int| 0 <= i < n implies (#[trigger] blocks[i])[0].key <= key by {
        assert(keys[i] <= key);
    }
    assert forall|i: int| n <= i < blocks.len() implies (#[trigger] blocks[i])[0].key > key by {
        assert(keys[i] > key);
    }
    key_is_in_its_block(blocks, key, n);
    if n == 0 {
        assert(at_most(values_for(all_recs(blocks), key), limit) =~= Seq::empty());
    } else {
        let b = blocks[n - 1];
        block_layout(data, start, count, blocks, n - 1);
        block_ascends(blocks, n - 1);
        let at = block_at(data, start, n - 1);
        assert(index.offsets@[n - 1] == offset_at(data, start, n - 1));
        assert(index.offsets@[n] == offset_at(data, start, n - 1 + 1));
        let end = index.blocks_at + index.offsets@[n];
        find_is_there(data, at + 12, end, b, true, b[0].key, key, limit);
    }
}

proof fn count_exists(keys: Seq<u64>, key: u64)
    requires
        keys_ascend(keys),
    ensures
        exists|n: int| keys_at_most(keys, key, n),
    decreases keys.len(),
{
    if keys.len() == 0 {
        assert(keys_at_most(keys, key, 0));
    } else {
        let front = keys.drop_last();
        assert forall|i: int, j: int| 0 <= i < j < front.len() implies #[trigger] front[i]
            < #[trigger] front[j] by {
            assert(keys[i] < keys[j]);
        }
        count_exists(front, key);
        let n = choose|n: int| keys_at_most(front, key, n);
        assert(keys_at_most(front, key, n));
        if keys.last() <= key {
            let all = keys.len() as int;
            assert forall|i: int| 0 <= i < all implies #[trigger] keys[i] <= key by {
                if i < all - 1 {
                    assert(keys[i] < keys[all - 1]);
                }
            }
            assert(keys_at_most(keys, key, all));
        } else {
            assert forall|i: int| 0 <= i < n implies #[trigger] keys[i] <= key by {
                assert(front[i] <= key);
            }
            assert forall|i: int| n <= i < keys.len() implies #[trigger] keys[i] > key by {
                if i < front.len() {
                    assert(front[i] > key);
                }
            }
            assert(keys_at_most(keys, key, n));
        }
    }
}

pub proof fn entries_of_join(a: Seq<Rec>, b: Seq<Rec>)
    ensures
        entries_of(a + b) == entries_of(a) + entries_of(b),
    decreases b.len(),
{
    if b.len() == 0 {
        assert(a + b =~= a);
        assert(entries_of(a) + entries_of(b) =~= entries_of(a));
    } else {
        entries_of_join(a, b.drop_last());
        assert((a + b).drop_last() =~= a + b.drop_last());
        assert((a + b).last() == b.last());
        assert(entries_of(a + b) =~= entries_of(a) + entries_of(b));
    }
}

/// The entries of one record.
pub open spec fn rec_entries(key: u64, values: Seq<u64>) -> Seq<(u64, u64)> {
    values.map_values(|v: u64| (key, v))
}

proof fn entries_of_one(r: Rec)
    ensures
        entries_of(seq![r]) == rec_entries(r.key, r.values),
{
    let one = seq![r];
    assert(one.drop_last() =~= Seq::empty());
    assert(entries_of(one.drop_last()) =~= Seq::empty());
    assert(entries_of(one) =~= rec_entries(r.key, r.values));
}

/// Walking written values yields them.
proof fn walk_values(
    index: &BlockIndex,
    data: Seq<u8>,
    block: int,
    at: int,
    records: nat,
    key: u64,
    values: Seq<u64>,
    value: u64,
)
    requires
        holds_at(data, at, gap_bytes(values, value)),
        values_ascend(values),
        values.len() > 0 ==> value <= values[0],
    ensures
        exists|v: u64| #[trigger]
            index.entries_at(
                data,
                block,
                at + gap_bytes(values, value).len(),
                records,
                key,
                false,
                0,
                v,
            ) == index.entries_at(
                data,
                block,
                at + gap_bytes(values, value).len(),
                records,
                key,
                false,
                0,
                v,
            ) && index.entries_at(data, block, at, records, key, false, values.len(), value)
                == rec_entries(key, values) + index.entries_at(
                data,
                block,
                at + gap_bytes(values, value).len(),
                records,
                key,
                false,
                0,
                v,
            ),
    decreases values.len(),
{
    if values.len() == 0 {
        let rest = index.entries_at(data, block, at, records, key, false, 0, value);
        assert(rec_entries(key, values) + rest =~= rest);
        assert(at + gap_bytes(values, value).len() == at);
    } else {
        let gap = (values[0] - value) as u64;
        let rest = values.skip(1);
        let head = varint(gap as nat);
        holds_parts(data, at, head, gap_bytes(rest, values[0]));
        varint_is_there(data, at, gap);
        assert forall|a: int, b: int| 0 <= a <= b < rest.len() implies #[trigger] rest[a]
            <= #[trigger] rest[b] by {
            assert(values[a + 1] <= values[b + 1]);
        }
        if rest.len() > 0 {
            assert(values[0] <= values[1]);
        }
        walk_values(index, data, block, at + head.len(), records, key, rest, values[0]);
        let end = at + gap_bytes(values, value).len();
        assert(end == at + head.len() + gap_bytes(rest, values[0]).len());
        let v = choose|v: u64| #[trigger]
            index.entries_at(data, block, end, records, key, false, 0, v) == index.entries_at(
                data,
                block,
                end,
                records,
                key,
                false,
                0,
                v,
            ) && index.entries_at(
                data,
                block,
                at + head.len(),
                records,
                key,
                false,
                rest.len(),
                values[0],
            ) == rec_entries(key, rest) + index.entries_at(
                data,
                block,
                end,
                records,
                key,
                false,
                0,
                v,
            );
        let tail = index.entries_at(data, block, end, records, key, false, 0, v);
        assert(index.entries_at(data, block, at, records, key, false, values.len(), value)
            =~= rec_entries(key, values) + tail) by {
            assert(seq![(key, values[0])] + (rec_entries(key, rest) + tail) =~= rec_entries(
                key,
                values,
            ) + tail);
        }
    }
}

/// Walking written records yields their entries, then goes on with the next
/// block.
proof fn walk_records(
    index: &BlockIndex,
    data: Seq<u8>,
    block: int,
    at: int,
    recs: Seq<Rec>,
    first: bool,
    prev: u64,
    value: u64,
)
    requires
        recs_ascend(recs),
        first ==> recs.len() > 0 && prev == recs[0].key && holds_at(data, at, body_bytes(recs)),
        !first ==> (recs.len() > 0 ==> prev < recs[0].key) && holds_at(
            data,
            at,
            tail_bytes(recs, prev),
        ),
    ensures
        index.entries_at(data, block, at, recs.len(), prev, first, 0, value) == entries_of(recs)
            + index.entries_at(data, block, 0, 0, 0, true, 0, 0),
    decreases recs.len(),
{
    let next_block = index.entries_at(data, block, 0, 0, 0, true, 0, 0);
    if recs.len() == 0 {
        assert(entries_of(recs) + next_block =~= next_block);
    } else {
        let r = recs[0];
        let rest = recs.skip(1);
        let tail = tail_bytes(rest, r.key);
        let body = rec_bytes(r.values);
        let count = varint(r.values.len());
        let gaps = gap_bytes(r.values, 0);
        assert(values_ascend(r.values));
        let i = if first {
            holds_parts(data, at, body, tail);
            at
        } else {
            let gap = (r.key - prev) as u64;
            let head = varint(gap as nat);
            assert(tail_bytes(recs, prev) =~= head + (body + tail));
            holds_parts(data, at, head, body + tail);
            varint_is_there(data, at, gap);
            holds_parts(data, at + head.len(), body, tail);
            at + head.len()
        };
        assert(read_key(data, at, first, prev) == Some((r.key, i)));
        holds_parts(data, i, count, gaps);
        varint_is_there(data, i, r.values.len() as u64);
        let next = i + count.len();
        walk_values(index, data, block, next, rest.len(), r.key, r.values, 0);
        let end = next + gaps.len();
        assert(end == i + body.len());
        recs_ascend_rest(recs);
        if rest.len() > 0 {
            assert(recs[0].key < recs[1].key);
        }
        let v = choose|v: u64| #[trigger]
            index.entries_at(data, block, end, rest.len(), r.key, false, 0, v)
                == index.entries_at(data, block, end, rest.len(), r.key, false, 0, v)
                && index.entries_at(
                data,
                block,
                next,
                rest.len(),
                r.key,
                false,
                r.values.len(),
                0,
            ) == rec_entries(r.key, r.values) + index.entries_at(
                data,
                block,
                end,
                rest.len(),
                r.key,
                false,
                0,
                v,
            );
        walk_records(index, data, block, end, rest, false, r.key, v);
        assert(recs =~= seq![r] + rest);
        entries_of_join(seq![r], rest);
        entries_of_one(r);
        assert(rec_entries(r.key, r.values) + (entries_of(rest) + next_block) =~= entries_of(recs)
            + next_block);
    }
}

proof fn walk_blocks(
    index: &BlockIndex,
    data: Seq<u8>,
    start: int,
    count: u64,
    blocks: Seq<Seq<Rec>>,
    i: int,
)
    requires
        holds_at(data, start, payload_bytes(count, blocks)),
        blocks_fit(blocks),
        recs_ascend(all_recs(blocks)),
        index.describes(data, start),
        0 <= i <= blocks.len(),
    ensures
        index.entries_at(data, i, 0, 0, 0, true, 0, 0) == entries_of(all_recs(blocks.skip(i))),
    decreases blocks.len() - i,
{
    payload_layout(data, start, count, blocks);
    if i == blocks.len() {
        assert(blocks.skip(i) =~= Seq::empty());
        assert(all_recs(blocks.skip(i)) =~= Seq::<Rec>::empty());
    } else {
        let b = blocks[i];
        assert(1 <= b.len());
        block_layout(data, start, count, blocks, i);
        block_ascends(blocks, i);
        let at = block_at(data, start, i);
        assert(index.offsets@[i] == offset_at(data, start, i));
        assert(index.first_keys@[i] == first_key_at(data, start, i));
        walk_records(index, data, i + 1, at + 12, b, true, b[0].key, 0);
        walk_blocks(index, data, start, count, blocks, i + 1);
        all_recs_first(blocks.skip(i));
        assert(blocks.skip(i).skip(1) =~= blocks.skip(i + 1));
        entries_of_join(b, all_recs(blocks.skip(i + 1)));
    }
}

/// **A written index walks back**: every entry, once, in order.
pub proof fn written_index_walks(
    index: &BlockIndex,
    data: Seq<u8>,
    start: int,
    count: u64,
    blocks: Seq<Seq<Rec>>,
)
    requires
        holds_at(data, start, payload_bytes(count, blocks)),
        blocks_fit(blocks),
        recs_ascend(all_recs(blocks)),
        index.describes(data, start),
    ensures
        index.entries(data) == entries_of(all_recs(blocks)),
        index.count == count,
{
    payload_layout(data, start, count, blocks);
    walk_blocks(index, data, start, count, blocks, 0);
    assert(blocks.skip(0) =~= blocks);
}

/// **A blocked payload is laid out for a search**: the number of entries, the number
/// of blocks, where each block starts and where the last one ends, and the blocks,
/// each with its first key and its number of records ahead of them.
#[verifier::rlimit(50)]
pub proof fn a_blocked_payload_is_laid_out(count: u64, blocks: Seq<Seq<Rec>>, i: int)
    requires
        0 <= i < blocks.len(),
        blocks[i].len() > 0,
    ensures
        ({
            let data = payload_bytes(count, blocks);
            let n = blocks.len() as int;
            let table: int = 24 + 8 * n;
            let at: int = table + block_start(blocks, i);
            &&& data.subrange(0, 8) == le64(count)
            &&& data.subrange(8, 16) == le64(n as u64)
            &&& data.subrange(16 + 8 * i, 24 + 8 * i) == le64(block_start(blocks, i) as u64)
            &&& data.subrange(table - 8, table) == le64(
                (data.len() - table) as u64,
            )
            &&& block_start(blocks, 0) == 0
            &&& at + 12 <= data.len()
            &&& data.subrange(at, at + 8) == le64(blocks[i][0].key)
            &&& data.subrange(at + 8, at + 12) == le32(blocks[i].len() as u32)
        }),
{
    let data = payload_bytes(count, blocks);
    let n = blocks.len() as int;
    let table: int = 24 + 8 * n;
    let all = blocks_bytes(blocks);
    let offsets = offset_bytes(blocks, blocks.len() + 1);
    le_len(count as nat, 8);
    le_len(n as u64 as nat, 8);
    offset_is_there(blocks, blocks.len() + 1, i);
    offset_is_there(blocks, blocks.len() + 1, n);
    block_is_there(blocks, i);
    assert(blocks.take(n) =~= blocks);
    assert(blocks.take(0) =~= Seq::empty());
    assert(data.len() == table + all.len());
    assert(data.subrange(0, 8) =~= le64(count));
    assert(data.subrange(8, 16) =~= le64(n as u64));
    assert(data.subrange(16 + 8 * i, 24 + 8 * i) =~= offsets.subrange(8 * i, 8 * i + 8));
    assert(data.subrange(table - 8, table) =~= offsets.subrange(8 * n, 8 * n + 8));
    let start = block_start(blocks, i) as int;
    let b = block_bytes(blocks[i]);
    let at: int = table + start;
    le_len(blocks[i][0].key as nat, 8);
    le_len(blocks[i].len() as u32 as nat, 4);
    assert(data.subrange(at, at + b.len()) =~= all.subrange(
        start,
        start + b.len(),
    ));
    assert(b.subrange(0, 8) =~= le64(blocks[i][0].key));
    assert(b.subrange(8, 12) =~= le32(blocks[i].len() as u32));
    assert(data.subrange(at, at + 8) =~= data.subrange(
        at,
        at + b.len(),
    ).subrange(0, 8));
    assert(data.subrange(at + 8, at + 12) =~= data.subrange(
        at,
        at + b.len(),
    ).subrange(8, 12));
}

} // verus!
