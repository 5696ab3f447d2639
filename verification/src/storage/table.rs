//! Fixed-stride pair tables: `u64 LE` pair count, then `count` pairs of
//! `(u64 LE, u64 LE)`. Sorted by the first column, a reader can map such a
//! table and binary-search it.

use vstd::prelude::*;

use super::blocks::{holds_at, holds_parts};
use super::wire::{get_u64_le, le64, le_len, put_u64_le, u64_at, u64_reads_back};

verus! {

/// Pairs, one after the other.
pub open spec fn pair_bytes(pairs: Seq<(u64, u64)>) -> Seq<u8>
    decreases pairs.len(),
{
    if pairs.len() == 0 {
        Seq::empty()
    } else {
        pair_bytes(pairs.drop_last()) + (le64(pairs.last().0) + le64(pairs.last().1))
    }
}

/// A whole table.
pub open spec fn table_bytes(pairs: Seq<(u64, u64)>) -> Seq<u8> {
    le64(pairs.len() as u64) + pair_bytes(pairs)
}

/// Pair `i` of the table at `start`.
pub open spec fn pair_at(data: Seq<u8>, start: int, i: int) -> (u64, u64) {
    (u64_at(data, start + 8 + 16 * i), u64_at(data, start + 16 + 16 * i))
}

/// The first `n` pairs of the table at `start`.
pub open spec fn pairs_at(data: Seq<u8>, start: int, n: nat) -> Seq<(u64, u64)> {
    Seq::new(n, |i: int| pair_at(data, start, i))
}

/// Why bytes are not a table of fixed-stride entries.
#[derive(Debug, Clone, Copy, PartialEq, Eq, Structural)]
pub enum TableError {
    /// There is no room for the header.
    Truncated,
    /// The payload is not as long as its header says.
    LengthMismatch,
}

/// The first thing wrong with the table at `start..end`, whose entries are
/// `stride` bytes wide.
pub open spec fn table_error(data: Seq<u8>, start: int, end: int, stride: int) -> Option<
    TableError,
> {
    if end - start < 8 {
        Some(TableError::Truncated)
    } else if end - start != 8 + u64_at(data, start) * stride {
        Some(TableError::LengthMismatch)
    } else {
        None
    }
}

pub proof fn pair_bytes_len(pairs: Seq<(u64, u64)>)
    ensures
        pair_bytes(pairs).len() == 16 * pairs.len(),
    decreases pairs.len(),
{
    if pairs.len() > 0 {
        pair_bytes_len(pairs.drop_last());
        le_len(pairs.last().0 as nat, 8);
        le_len(pairs.last().1 as nat, 8);
    }
}

pub proof fn pair_bytes_push(pairs: Seq<(u64, u64)>, p: (u64, u64))
    ensures
        pair_bytes(pairs.push(p)) == pair_bytes(pairs) + le64(p.0) + le64(p.1),
{
    assert(pairs.push(p).drop_last() =~= pairs);
    assert(pair_bytes(pairs.push(p)) =~= pair_bytes(pairs) + le64(p.0) + le64(p.1));
}

proof fn pair_is_there(data: Seq<u8>, at: int, pairs: Seq<(u64, u64)>, i: int)
    requires
        holds_at(data, at, pair_bytes(pairs)),
        0 <= i < pairs.len(),
    ensures
        u64_at(data, at + 16 * i) == pairs[i].0,
        u64_at(data, at + 16 * i + 8) == pairs[i].1,
    decreases pairs.len(),
{
    let front = pairs.drop_last();
    let (a, b) = pairs.last();
    pair_bytes_len(front);
    le_len(a as nat, 8);
    le_len(b as nat, 8);
    holds_parts(data, at, pair_bytes(front), le64(a) + le64(b));
    if i == pairs.len() - 1 {
        holds_parts(data, at + 16 * i, le64(a), le64(b));
        u64_reads_back(data, at + 16 * i, a);
        u64_reads_back(data, at + 16 * i + 8, b);
    } else {
        pair_is_there(data, at, front, i);
    }
}

/// **A written table reads back**: its header says how many pairs it has, its
/// length is what the header says, and each pair is where its place says.
pub proof fn table_reads_back(data: Seq<u8>, start: int, pairs: Seq<(u64, u64)>)
    requires
        holds_at(data, start, table_bytes(pairs)),
        pairs.len() <= u64::MAX,
    ensures
        table_bytes(pairs).len() == 8 + 16 * pairs.len(),
        u64_at(data, start) == pairs.len(),
        table_error(data, start, start + table_bytes(pairs).len(), 16) is None,
        forall|i: int| 0 <= i < pairs.len() ==> #[trigger] pair_at(data, start, i) == pairs[i],
        pairs_at(data, start, pairs.len()) == pairs,
{
    let head = le64(pairs.len() as u64);
    le_len(pairs.len() as u64 as nat, 8);
    pair_bytes_len(pairs);
    holds_parts(data, start, head, pair_bytes(pairs));
    u64_reads_back(data, start, pairs.len() as u64);
    assert forall|i: int| 0 <= i < pairs.len() implies #[trigger] pair_at(data, start, i)
        == pairs[i] by {
        pair_is_there(data, start + 8, pairs, i);
    }
    assert(pairs_at(data, start, pairs.len()) =~= pairs);
}

/// Pair `i` of the table at `start`.
pub fn get_pair(data: &[u8], start: usize, i: usize) -> (p: (u64, u64))
    requires
        start + 8 + 16 * (i + 1) <= data@.len(),
    ensures
        p == pair_at(data@, start as int, i as int),
{
    let len: usize = data.len();
    let at: usize = start + 8 + 16 * i;
    (get_u64_le(data, at), get_u64_le(data, at + 8))
}

/// How many entries of `stride` bytes the table at `start..end` has, or what
/// is wrong with it.
pub fn table_count(data: &[u8], start: usize, end: usize, stride: usize) -> (r: Result<
    usize,
    TableError,
>)
    requires
        start <= end <= data@.len(),
        0 < stride <= 16,
    ensures
        match r {
            Ok(n) => table_error(data@, start as int, end as int, stride as int) is None && n
                == u64_at(data@, start as int) && end - start == 8 + n * stride,
            Err(e) => table_error(data@, start as int, end as int, stride as int) == Some(e),
        },
{
    if end - start < 8 {
        return Err(TableError::Truncated);
    }
    let count: u64 = get_u64_le(data, start);
    // Wide enough that a corrupt count cannot overflow.
    assert(0 <= count * stride <= 16 * u64::MAX) by (nonlinear_arith)
        requires
            0 <= count <= u64::MAX,
            0 < stride <= 16,
    ;
    let want: u128 = 8 + (count as u128) * (stride as u128);
    if want != (end - start) as u128 {
        return Err(TableError::LengthMismatch);
    }
    assert(count <= count * stride) by (nonlinear_arith)
        requires
            0 <= count,
            0 < stride,
    ;
    Ok(count as usize)
}

/// A table being written. Its header is reserved up front and patched in when
/// the table closes, so each table is written once, in place.
pub struct TableWriter {
    buf: Vec<u8>,
    count: u64,
    pairs: Ghost<Seq<(u64, u64)>>,
}

impl TableWriter {
    pub closed spec fn pairs(&self) -> Seq<(u64, u64)> {
        self.pairs@
    }

    pub closed spec fn wf(&self) -> bool {
        &&& self.buf@ == le64(0) + pair_bytes(self.pairs@)
        &&& self.count == self.pairs@.len()
    }

    /// A table without pairs.
    pub fn new() -> (t: TableWriter)
        ensures
            t.wf(),
            t.pairs() == Seq::<(u64, u64)>::empty(),
    {
        let mut buf: Vec<u8> = Vec::new();
        put_u64_le(&mut buf, 0);
        let t = TableWriter { buf, count: 0, pairs: Ghost(Seq::empty()) };
        assert(t.buf@ =~= le64(0) + pair_bytes(t.pairs@));
        t
    }

    /// How many pairs it has.
    pub fn count(&self) -> (n: u64)
        requires
            self.wf(),
        ensures
            n == self.pairs().len(),
    {
        self.count
    }

    /// Adds a pair.
    pub fn push(&mut self, a: u64, b: u64)
        requires
            old(self).wf(),
        ensures
            final(self).wf(),
            final(self).pairs() == old(self).pairs().push((a, b)),
    {
        let ghost before = self.pairs@;
        put_u64_le(&mut self.buf, a);
        put_u64_le(&mut self.buf, b);
        proof {
            pair_bytes_push(before, (a, b));
            pair_bytes_len(before.push((a, b)));
            le_len(0, 8);
            assert(self.buf@ =~= le64(0) + pair_bytes(before.push((a, b))));
        }
        let len: usize = self.buf.len();
        assert(len == 8 + 16 * (self.count + 1));
        self.count = self.count + 1;
        self.pairs = Ghost(before.push((a, b)));
    }

    /// The finished table.
    pub fn close(self) -> (bytes: Vec<u8>)
        requires
            self.wf(),
        ensures
            bytes@ == table_bytes(self.pairs()),
            self.pairs().len() <= u64::MAX,
    {
        let mut buf = self.buf;
        let ghost start = buf@;
        let mut i: usize = 0;
        let mut head: Vec<u8> = Vec::new();
        put_u64_le(&mut head, self.count);
        proof {
            le_len(0, 8);
            le_len(self.count as nat, 8);
            pair_bytes_len(self.pairs@);
        }
        while i < 8
            invariant
                i <= 8,
                head@.len() == 8,
                start.len() >= 8,
                buf@ == head@.take(i as int) + start.skip(i as int),
            decreases 8 - i,
        {
            let b: u8 = head[i];
            buf.set(i, b);
            i += 1;
            assert(buf@ =~= head@.take(i as int) + start.skip(i as int));
        }
        assert(head@.take(8) =~= head@);
        assert(buf@ =~= le64(self.count) + pair_bytes(self.pairs@));
        buf
    }
}

/// **A table is its count and its pairs**, eight bytes a number, the pairs one
/// after the other in the order given.
pub proof fn a_table_is_its_count_and_its_pairs(pairs: Seq<(u64, u64)>, i: int)
    requires
        pairs.len() <= u64::MAX,
        0 <= i < pairs.len(),
    ensures
        table_bytes(pairs).len() == 8 + 16 * pairs.len(),
        u64_at(table_bytes(pairs), 0) == pairs.len(),
        u64_at(table_bytes(pairs), 8 + 16 * i) == pairs[i].0,
        u64_at(table_bytes(pairs), 16 + 16 * i) == pairs[i].1,
{
    let data = table_bytes(pairs);
    assert(data.subrange(0, data.len() as int) =~= data);
    table_reads_back(data, 0, pairs);
    assert(pair_at(data, 0, i) == pairs[i]);
}

/// **A table is refused where its length is not what its count says**, and where
/// there is no room for the count.
pub proof fn a_table_is_as_long_as_it_says(data: Seq<u8>, start: int, end: int, stride: int)
    ensures
        table_error(data, start, end, stride) is None <==> end - start >= 8 && end - start == 8
            + u64_at(data, start) * stride,
        table_error(data, start, end, stride) == Some(TableError::Truncated) <==> end - start < 8,
{
}

} // verus!
