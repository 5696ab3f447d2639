//! Blocked membership filters, so a layer that does *not* hold a key can say
//! so without a binary search over the mapping.
//!
//! All of a key's bits live in one 64-byte block: one hash picks the block, and
//! every bit for that key is set within it, so a probe touches one cache line.

use vstd::prelude::*;

use super::blocks::{holds_at, holds_parts};
use super::payload::{freeze, payload_content};
use super::wire::{
    get_u32_le, get_u64_le, le32, le64, le_len, put_u32_le, put_u64_le, u32_at, u32_reads_back,
    u64_at, u64_reads_back,
};

verus! {

/// Bits set per key. All within one block, so a probe is one cache line.
pub const K: u32 = 6;

/// One cache line.
pub const BLOCK_BITS: usize = 512;

pub const BLOCK_WORDS: usize = 8;

/// Default bits of filter per key.
pub const DEFAULT_FILTER_BITS: usize = 8;

/// "BLF1".
pub const MAGIC: u32 = 0x424C_4631;

/// Bits per key, or zero to build no filter at all.
///
/// Lowering it costs query latency, not correctness. Readers do not need to
/// know this value: the encoded filter records its own block count.
pub fn clamp_filter_bits(bits: usize) -> (n: usize)
    ensures
        n == clamped(bits as nat),
{
    if bits < 64 {
        bits
    } else {
        64
    }
}

pub open spec fn clamped(bits: nat) -> nat {
    if bits < 64 {
        bits
    } else {
        64
    }
}

// --- hashing -----------------------------------------------------------------------

/// One round of splitmix64.
pub open spec fn mixed(x: u64) -> u64 {
    let a = x.wrapping_add(0x9E37_79B9_7F4A_7C15);
    let b = (a ^ (a >> 30)).wrapping_mul(0xBF58_476D_1CE4_E5B9);
    let c = (b ^ (b >> 27)).wrapping_mul(0x94D0_49BB_1331_11EB);
    c ^ (c >> 31)
}

/// splitmix64: cheap, and good enough that consecutive node ids do not collide
/// into the same block.
fn mix(x: u64) -> (h: u64)
    ensures
        h == mixed(x),
{
    let a: u64 = x.wrapping_add(0x9E37_79B9_7F4A_7C15);
    let b: u64 = (a ^ (a >> 30)).wrapping_mul(0xBF58_476D_1CE4_E5B9);
    let c: u64 = (b ^ (b >> 27)).wrapping_mul(0x94D0_49BB_1331_11EB);
    c ^ (c >> 31)
}

/// What a scope adds to a node's hash: its low bits, spread over the top, and
/// those that this shifts out below them.
pub open spec fn scope_salt(scope: u32) -> u64 {
    ((scope as u64) << 40).wrapping_mul(0x9E37_79B9) ^ ((scope as u64) >> 24)
}

pub open spec fn overlay_hash(scope: u32, node: u64) -> u64 {
    mixed(node ^ scope_salt(scope))
}

/// Hash for an overlay key, which is a `(scope, node)` pair rather than a
/// node. All of the scope counts, so two scopes that hold the same node are
/// never conflated.
pub fn overlay_key(scope: u32, node: u64) -> (h: u64)
    ensures
        h == overlay_hash(scope, node),
{
    let low: u64 = ((scope as u64) << 40).wrapping_mul(0x9E37_79B9);
    mix(node ^ (low ^ ((scope as u64) >> 24)))
}

/// The `n`th hash of a key.
pub open spec fn hash_of(key: u64, n: nat) -> u64
    decreases n,
{
    if n == 0 {
        mixed(key)
    } else {
        mixed(hash_of(key, (n - 1) as nat))
    }
}

/// A block's words with bit `bit` set.
pub open spec fn with_bit(words: Seq<u64>, bit: int) -> Seq<u64> {
    words.update(bit / 64, words[bit / 64] | (1u64 << ((bit % 64) as u64)))
}

/// A block's words with no bit set.
pub open spec fn no_bits() -> Seq<u64> {
    Seq::new(BLOCK_WORDS as nat, |w: int| 0u64)
}

/// The words with the bits that the first `n` hashes of `key` name.
pub open spec fn pattern(key: u64, n: nat) -> Seq<u64>
    decreases n,
{
    if n == 0 {
        no_bits()
    } else {
        with_bit(pattern(key, (n - 1) as nat), hash_of(key, n) as int % BLOCK_BITS as int)
    }
}

/// The block, out of `n`, that a key belongs to.
pub open spec fn block_of(key: u64, n: nat) -> int {
    (hash_of(key, 0) >> 32) as int % n as int
}

/// Every bit of `key` is set.
pub open spec fn has_all_bits(blocks: Seq<Seq<u64>>, key: u64) -> bool {
    let words = blocks[block_of(key, blocks.len())];
    let p = pattern(key, K as nat);
    forall|w: int| 0 <= w < BLOCK_WORDS ==> #[trigger] words[w] & p[w] == p[w]
}

/// The words of `a` with the bits of `p` set too.
pub open spec fn overlaid(a: Seq<u64>, p: Seq<u64>) -> Seq<u64> {
    Seq::new(BLOCK_WORDS as nat, |w: int| a[w] | p[w])
}

/// `blocks` with the bits of `key` set.
pub open spec fn inserted(blocks: Seq<Seq<u64>>, key: u64) -> Seq<Seq<u64>> {
    let b = block_of(key, blocks.len());
    let p = pattern(key, K as nat);
    blocks.update(b, overlaid(blocks[b], p))
}

/// A filter of `n` blocks over `keys`.
pub open spec fn filter_of(keys: Seq<u64>, n: nat) -> Seq<Seq<u64>>
    decreases keys.len(),
{
    if keys.len() == 0 {
        Seq::new(n, |i: int| no_bits())
    } else {
        inserted(filter_of(keys.drop_last(), n), keys.last())
    }
}

/// How many blocks a filter for `hint` keys has.
pub open spec fn blocks_for(hint: nat, bits_per_key: nat) -> nat {
    let bits = if clamped(bits_per_key) == 0 {
        1
    } else {
        clamped(bits_per_key)
    };
    let n = (hint * bits + BLOCK_BITS - 1) / (BLOCK_BITS as int);
    if n < 1 {
        1
    } else {
        n as nat
    }
}

/// Every block has its words.
pub open spec fn whole_blocks(blocks: Seq<Seq<u64>>) -> bool {
    forall|i: int| 0 <= i < blocks.len() ==> (#[trigger] blocks[i]).len() == BLOCK_WORDS
}

pub proof fn filter_of_shape(keys: Seq<u64>, n: nat)
    requires
        n > 0,
    ensures
        filter_of(keys, n).len() == n,
        whole_blocks(filter_of(keys, n)),
    decreases keys.len(),
{
    if keys.len() > 0 {
        filter_of_shape(keys.drop_last(), n);
        inserting_keeps_shape(filter_of(keys.drop_last(), n), keys.last());
    }
}

proof fn inserting_keeps_shape(blocks: Seq<Seq<u64>>, key: u64)
    requires
        blocks.len() > 0,
        whole_blocks(blocks),
    ensures
        inserted(blocks, key).len() == blocks.len(),
        whole_blocks(inserted(blocks, key)),
{
    let now = inserted(blocks, key);
    assert forall|i: int| 0 <= i < now.len() implies (#[trigger] now[i]).len() == BLOCK_WORDS by {
        assert(blocks[i].len() == BLOCK_WORDS);
    }
}

// --- the encoding ---------------------------------------------------------------------

/// Words, one after the other.
pub open spec fn word_bytes(words: Seq<u64>) -> Seq<u8>
    decreases words.len(),
{
    if words.len() == 0 {
        Seq::empty()
    } else {
        word_bytes(words.drop_last()) + le64(words.last())
    }
}

/// Blocks, one after the other.
pub open spec fn all_words(blocks: Seq<Seq<u64>>) -> Seq<u64>
    decreases blocks.len(),
{
    if blocks.len() == 0 {
        Seq::empty()
    } else {
        all_words(blocks.drop_last()) + blocks.last()
    }
}

/// An encoded filter: the magic, the block count, and the words.
pub open spec fn filter_bytes(blocks: Seq<Seq<u64>>) -> Seq<u8> {
    le32(MAGIC) + le32(blocks.len() as u32) + word_bytes(all_words(blocks))
}

/// Why bytes are not a filter.
#[derive(Debug, Clone, Copy, PartialEq, Eq, Structural)]
pub enum FilterError {
    Truncated,
    WrongMagic(u32),
    LengthMismatch,
}

/// The first thing wrong with an encoded filter.
pub open spec fn filter_error(data: Seq<u8>) -> Option<FilterError> {
    if data.len() < 8 {
        Some(FilterError::Truncated)
    } else if u32_at(data, 0) != MAGIC {
        Some(FilterError::WrongMagic(u32_at(data, 0)))
    } else if data.len() != 8 + u32_at(data, 4) * 64 {
        Some(FilterError::LengthMismatch)
    } else {
        None
    }
}

/// The blocks of an encoded filter.
pub open spec fn decoded(data: Seq<u8>) -> Seq<Seq<u64>> {
    Seq::new(
        u32_at(data, 4) as nat,
        |b: int| Seq::new(BLOCK_WORDS as nat, |w: int| u64_at(data, 8 + (b * 8 + w) * 8)),
    )
}

// --- the filter -----------------------------------------------------------------------

#[derive(Debug, Clone)]
pub struct BlockedFilter {
    blocks: Vec<[u64; 8]>,
}

impl View for BlockedFilter {
    type V = Seq<Seq<u64>>;

    closed spec fn view(&self) -> Seq<Seq<u64>> {
        self.blocks@.map_values(|b: [u64; 8]| b@)
    }
}

impl BlockedFilter {
    /// A filter over `keys` at `bits_per_key`, or `None` to build no filter.
    ///
    /// `hint` only sizes the filter; a wrong hint costs accuracy, never
    /// correctness.
    pub fn build_with(keys: &[u64], hint: usize, bits_per_key: usize) -> (r: Option<BlockedFilter>)
        ensures
            match r {
                None => bits_per_key == 0,
                Some(f) => bits_per_key > 0 && f@ == filter_of(
                    keys@,
                    blocks_for(hint as nat, bits_per_key as nat),
                ),
            },
    {
        let bits: usize = clamp_filter_bits(bits_per_key);
        if bits == 0 {
            return None;
        }
        Some(BlockedFilter::build(keys, hint, bits))
    }

    /// A filter over `keys`.
    pub fn build(keys: &[u64], hint: usize, bits_per_key: usize) -> (f: BlockedFilter)
        ensures
            f@ == filter_of(keys@, blocks_for(hint as nat, bits_per_key as nat)),
    {
        let clamped_bits: usize = clamp_filter_bits(bits_per_key);
        let bits: usize = if clamped_bits == 0 {
            1
        } else {
            clamped_bits
        };
        assert(0 <= hint * bits <= 64 * usize::MAX) by (nonlinear_arith)
            requires
                0 <= hint <= usize::MAX,
                0 <= bits <= 64,
        ;
        let wanted: u128 = ((hint as u128) * (bits as u128) + 511) / 512;
        let n: usize = if wanted < 1 {
            1
        } else {
            wanted as usize
        };
        assert(n == blocks_for(hint as nat, bits_per_key as nat));
        let mut blocks: Vec<[u64; 8]> = Vec::new();
        let mut i: usize = 0;
        while i < n
            invariant
                i <= n,
                blocks@.len() == i,
                forall|j: int|
                    0 <= j < i ==> (#[trigger] blocks@[j])@ =~= no_bits(),
            decreases n - i,
        {
            blocks.push([0u64; 8]);
            i += 1;
        }
        let mut f = BlockedFilter { blocks };
        assert(f@ =~= filter_of(keys@.take(0), n as nat));
        let mut k: usize = 0;
        while k < keys.len()
            invariant
                k <= keys.len(),
                n > 0,
                f@.len() == n,
                f@ == filter_of(keys@.take(k as int), n as nat),
            decreases keys.len() - k,
        {
            let key: u64 = keys[k];
            f.insert(key);
            assert(keys@.take(k + 1).drop_last() =~= keys@.take(k as int));
            k += 1;
        }
        assert(keys@.take(k as int) =~= keys@);
        f
    }

    /// Sets the bits of `key`.
    fn insert(&mut self, key: u64)
        requires
            old(self)@.len() > 0,
        ensures
            final(self)@ == inserted(old(self)@, key),
            final(self)@.len() == old(self)@.len(),
    {
        let ghost before = self@;
        let (block, pattern_words) = self.locate(key);
        let mut words: [u64; 8] = self.blocks[block];
        let ghost was = words@;
        assert(before[block as int] == was);
        let mut w: usize = 0;
        while w < 8
            invariant
                w <= 8,
                was.len() == 8,
                pattern_words@.len() == 8,
                forall|j: int| 0 <= j < w ==> #[trigger] words@[j] == was[j] | pattern_words@[j],
                forall|j: int| w <= j < 8 ==> #[trigger] words@[j] == was[j],
            decreases 8 - w,
        {
            words[w] = words[w] | pattern_words[w];
            w += 1;
        }
        self.blocks.set(block, words);
        proof {
            let p = pattern(key, K as nat);
            assert(words@ =~= overlaid(was, p));
            assert(self@ =~= inserted(before, key));
        }
    }

    /// `false` means definitely absent; `true` means "worth a real lookup".
    pub fn may_contain(&self, key: u64) -> (b: bool)
        requires
            self@.len() > 0,
        ensures
            b == has_all_bits(self@, key),
    {
        let (block, pattern_words) = self.locate(key);
        let words: [u64; 8] = self.blocks[block];
        assert(self@[block as int] == words@);
        let ghost p = pattern(key, K as nat);
        let mut w: usize = 0;
        while w < 8
            invariant
                w <= 8,
                pattern_words@ == p,
                p == pattern(key, K as nat),
                words@ == self@[block_of(key, self@.len())],
                forall|j: int| 0 <= j < w ==> #[trigger] words@[j] & p[j] == p[j],
            decreases 8 - w,
        {
            let a: u64 = words[w];
            let bits: u64 = pattern_words[w];
            if a & bits != bits {
                assert(self@[block_of(key, self@.len())][w as int] & p[w as int] != p[w as int]);
                return false;
            }
            w += 1;
        }
        true
    }

    /// The block a key belongs to, and the bits it sets within it.
    fn locate(&self, key: u64) -> (r: (usize, [u64; 8]))
        requires
            self@.len() > 0,
        ensures
            r.0 == block_of(key, self@.len()),
            0 <= r.0 < self@.len(),
            r.1@ == pattern(key, K as nat),
    {
        let mut h: u64 = mix(key);
        let n: usize = self.blocks.len();
        let top: u64 = h >> 32;
        assert(top <= 0xffff_ffff) by (bit_vector)
            requires
                top == h >> 32,
        ;
        let block: usize = top as usize % n;
        let mut words: [u64; 8] = [0u64; 8];
        assert(words@ =~= pattern(key, 0));
        let mut i: u32 = 0;
        while i < K
            invariant
                i <= K,
                h == hash_of(key, i as nat),
                words@ == pattern(key, i as nat),
            decreases K - i,
        {
            h = mix(h);
            let bit: usize = (h % 512) as usize;
            words[bit / 64] = words[bit / 64] | (1u64 << ((bit % 64) as u64));
            i += 1;
            assert(words@ =~= pattern(key, i as nat));
        }
        (block, words)
    }

    /// Heap held by the blocks.
    pub fn heap_bytes(&self) -> (n: usize)
        requires
            self@.len() * 64 <= usize::MAX,
        ensures
            n == self@.len() * 64,
    {
        self.blocks.len() * BLOCK_WORDS * 8
    }

    /// The encoded filter.
    pub fn encode(&self) -> (b: bytes::Bytes)
        ensures
            payload_content(b) == filter_bytes(self@),
    {
        let mut out: Vec<u8> = Vec::new();
        put_u32_le(&mut out, MAGIC);
        put_u32_le(&mut out, self.blocks.len() as u32);
        let ghost head = out@;
        let mut i: usize = 0;
        assert(out@ =~= head + word_bytes(all_words(self@.take(0))));
        while i < self.blocks.len()
            invariant
                i <= self.blocks.len(),
                self@.len() == self.blocks.len(),
                out@ == head + word_bytes(all_words(self@.take(i as int))),
            decreases self.blocks.len() - i,
        {
            let block: [u64; 8] = self.blocks[i];
            let ghost done = all_words(self@.take(i as int));
            assert(self@[i as int] == block@);
            let mut w: usize = 0;
            assert(done + block@.take(0) =~= done);
            while w < 8
                invariant
                    w <= 8,
                    out@ == head + word_bytes(done + block@.take(w as int)),
                decreases 8 - w,
            {
                let word: u64 = block[w];
                put_u64_le(&mut out, word);
                proof {
                    let all = done + block@.take(w + 1);
                    assert(all.drop_last() =~= done + block@.take(w as int));
                    assert(all.last() == word);
                    assert(out@ =~= head + word_bytes(all));
                }
                w += 1;
            }
            assert(block@.take(8) =~= block@);
            assert(self@.take(i + 1).drop_last() =~= self@.take(i as int));
            assert(self@.take(i + 1).last() == block@);
            i += 1;
        }
        assert(self@.take(i as int) =~= self@);
        freeze(out)
    }

    /// Reads an encoded filter.
    pub fn decode(data: &[u8]) -> (r: Result<BlockedFilter, FilterError>)
        ensures
            match r {
                Ok(f) => filter_error(data@) is None && f@ == decoded(data@),
                Err(e) => filter_error(data@) == Some(e),
            },
    {
        let len: usize = data.len();
        if len < 8 {
            return Err(FilterError::Truncated);
        }
        let magic: u32 = get_u32_le(data, 0);
        if magic != MAGIC {
            return Err(FilterError::WrongMagic(magic));
        }
        let count: u32 = get_u32_le(data, 4);
        let want: u64 = 8 + count as u64 * 64;
        if len as u64 != want {
            return Err(FilterError::LengthMismatch);
        }
        let mut blocks: Vec<[u64; 8]> = Vec::new();
        let mut b: usize = 0;
        while b < count as usize
            invariant
                b <= count,
                len == data@.len(),
                len == 8 + count * 64,
                count == u32_at(data@, 4),
                blocks@.len() == b,
                forall|j: int| 0 <= j < b ==> (#[trigger] blocks@[j])@ =~= decoded(data@)[j],
            decreases count - b,
        {
            let mut block: [u64; 8] = [0u64; 8];
            let mut w: usize = 0;
            while w < 8
                invariant
                    w <= 8,
                    b < count,
                    len == data@.len(),
                    len == 8 + count * 64,
                    forall|j: int|
                        0 <= j < w ==> #[trigger] block@[j] == u64_at(data@, 8 + (b * 8 + j) * 8),
                decreases 8 - w,
            {
                let at: usize = 8 + (b * 8 + w) * 8;
                block[w] = get_u64_le(data, at);
                w += 1;
            }
            blocks.push(block);
            assert(block@ =~= decoded(data@)[b as int]);
            b += 1;
        }
        let f = BlockedFilter { blocks };
        assert(f@ =~= decoded(data@));
        Ok(f)
    }
}

// --- laws --------------------------------------------------------------------------------

/// Setting more bits never clears one.
proof fn insert_keeps(blocks: Seq<Seq<u64>>, key: u64, other: u64)
    requires
        blocks.len() > 0,
        whole_blocks(blocks),
        has_all_bits(blocks, key) || key == other,
    ensures
        has_all_bits(inserted(blocks, other), key),
{
    let now = inserted(blocks, other);
    let b = block_of(key, blocks.len());
    let p = pattern(key, K as nat);
    let q = pattern(other, K as nat);
    assert forall|w: int| 0 <= w < BLOCK_WORDS implies #[trigger] now[b][w] & p[w] == p[w] by {
        let was = blocks[b][w];
        let x = p[w];
        let y = q[w];
        if key == other {
            assert((was | x) & x == x) by (bit_vector);
        } else {
            assert(was & x == x);
            assert((was | y) & x == x) by (bit_vector)
                requires
                    was & x == x,
            ;
        }
    }
}

/// **No false negatives, ever**: a filter says yes for every key it was built
/// over, however it was sized.
pub proof fn every_member_is_reported_present(keys: Seq<u64>, n: nat, key: u64)
    requires
        n > 0,
        keys.contains(key),
    ensures
        has_all_bits(filter_of(keys, n), key),
    decreases keys.len(),
{
    let before = filter_of(keys.drop_last(), n);
    filter_of_shape(keys.drop_last(), n);
    if keys.last() != key {
        let i = keys.index_of(key);
        assert(keys.drop_last()[i] == key);
        every_member_is_reported_present(keys.drop_last(), n, key);
    }
    insert_keeps(before, key, keys.last());
}

proof fn word_bytes_len(words: Seq<u64>)
    ensures
        word_bytes(words).len() == 8 * words.len(),
    decreases words.len(),
{
    if words.len() > 0 {
        word_bytes_len(words.drop_last());
        le_len(words.last() as nat, 8);
    }
}

proof fn word_is_there(data: Seq<u8>, at: int, words: Seq<u64>, i: int)
    requires
        holds_at(data, at, word_bytes(words)),
        0 <= i < words.len(),
    ensures
        u64_at(data, at + 8 * i) == words[i],
    decreases words.len(),
{
    let front = words.drop_last();
    word_bytes_len(front);
    le_len(words.last() as nat, 8);
    holds_parts(data, at, word_bytes(front), le64(words.last()));
    if i == words.len() - 1 {
        u64_reads_back(data, at + 8 * i, words.last());
    } else {
        word_is_there(data, at, front, i);
    }
}

proof fn all_words_at(blocks: Seq<Seq<u64>>, b: int, w: int)
    requires
        whole_blocks(blocks),
        0 <= b < blocks.len(),
        0 <= w < BLOCK_WORDS,
    ensures
        all_words(blocks).len() == 8 * blocks.len(),
        all_words(blocks)[8 * b + w] == blocks[b][w],
    decreases blocks.len(),
{
    reveal_with_fuel(all_words, 2);
    let front = blocks.drop_last();
    assert(blocks[blocks.len() - 1].len() == 8);
    assert forall|i: int|
        0 <= i < front.len()
    implies (#[trigger] front[i]).len() == BLOCK_WORDS by {
        assert(blocks[i].len() == BLOCK_WORDS);
    }
    if front.len() > 0 {
        all_words_at(front, 0, 0);
    }
    if b < front.len() {
        all_words_at(front, b, w);
        assert(front[b] == blocks[b]);
    }
}

proof fn all_words_len(blocks: Seq<Seq<u64>>)
    requires
        whole_blocks(blocks),
    ensures
        all_words(blocks).len() == 8 * blocks.len(),
{
    if blocks.len() > 0 {
        all_words_at(blocks, 0, 0);
    }
}

/// **A filter survives its encoding**: the bytes of a filter decode to it.
pub proof fn filter_reads_back(blocks: Seq<Seq<u64>>)
    requires
        whole_blocks(blocks),
        blocks.len() <= u32::MAX,
    ensures
        filter_error(filter_bytes(blocks)) is None,
        decoded(filter_bytes(blocks)) == blocks,
{
    let data = filter_bytes(blocks);
    let words = all_words(blocks);
    all_words_len(blocks);
    word_bytes_len(words);
    le_len(MAGIC as nat, 4);
    le_len(blocks.len() as u32 as nat, 4);
    assert(data.subrange(0, data.len() as int) =~= data);
    holds_parts(data, 0, le32(MAGIC) + le32(blocks.len() as u32), word_bytes(words));
    holds_parts(data, 0, le32(MAGIC), le32(blocks.len() as u32));
    u32_reads_back(data, 0, MAGIC);
    u32_reads_back(data, 4, blocks.len() as u32);
    let back = decoded(data);
    assert forall|b: int| 0 <= b < blocks.len() implies #[trigger] back[b] == blocks[b] by {
        assert forall|w: int|
            0 <= w < BLOCK_WORDS
        implies #[trigger] back[b][w] == blocks[b][w] by {
            all_words_at(blocks, b, w);
            word_is_there(data, 8, words, 8 * b + w);
        }
        assert(blocks[b].len() == BLOCK_WORDS);
        assert(back[b] =~= blocks[b]);
    }
    assert(back =~= blocks);
}

/// Multiplying by `c` is undone by multiplying by `inverse`.
proof fn odd_multiples_differ(a: u64, b: u64, c: u64, inverse: u64, wraps: int)
    requires
        a.wrapping_mul(c) == b.wrapping_mul(c),
        c * inverse == wraps * 0x1_0000_0000_0000_0000 + 1,
    ensures
        a == b,
{
    undone(a, c, inverse, wraps);
    undone(b, c, inverse, wraps);
}

proof fn undone(a: u64, c: u64, inverse: u64, wraps: int)
    requires
        c * inverse == wraps * 0x1_0000_0000_0000_0000 + 1,
    ensures
        (a.wrapping_mul(c) * inverse) % 0x1_0000_0000_0000_0000 == a,
{
    let m: int = 0x1_0000_0000_0000_0000;
    let ac = a as int * c as int;
    assert(a.wrapping_mul(c) == ac % m);
    vstd::arithmetic::div_mod::lemma_mul_mod_noop_left(ac, inverse as int, m);
    assert(ac * inverse == a * (c * inverse)) by (nonlinear_arith)
        requires
            ac == a * c,
    ;
    assert(a * (wraps * m + 1) == m * (a * wraps) + a) by (nonlinear_arith);
    vstd::arithmetic::div_mod::lemma_mod_multiples_vanish(a * wraps, a as int, m);
    vstd::arithmetic::div_mod::lemma_small_mod(a as nat, m as nat);
}

/// **Hashing loses nothing**: different keys have different hashes.
pub proof fn mixing_is_injective(x: u64, y: u64)
    requires
        mixed(x) == mixed(y),
    ensures
        x == y,
{
    let a1 = x.wrapping_add(0x9E37_79B9_7F4A_7C15);
    let a2 = y.wrapping_add(0x9E37_79B9_7F4A_7C15);
    let p1 = a1 ^ (a1 >> 30);
    let p2 = a2 ^ (a2 >> 30);
    let b1 = p1.wrapping_mul(0xBF58_476D_1CE4_E5B9);
    let b2 = p2.wrapping_mul(0xBF58_476D_1CE4_E5B9);
    let q1 = b1 ^ (b1 >> 27);
    let q2 = b2 ^ (b2 >> 27);
    let c1 = q1.wrapping_mul(0x94D0_49BB_1331_11EB);
    let c2 = q2.wrapping_mul(0x94D0_49BB_1331_11EB);
    assert(c1 == c2) by (bit_vector)
        requires
            c1 ^ (c1 >> 31) == c2 ^ (c2 >> 31),
    ;
    odd_multiples_differ(q1, q2, 0x94D0_49BB_1331_11EB, 0x319642b2d24d8ec3, 0x1cd336eda85f1453);
    assert(b1 == b2) by (bit_vector)
        requires
            b1 ^ (b1 >> 27) == b2 ^ (b2 >> 27),
    ;
    odd_multiples_differ(p1, p2, 0xBF58_476D_1CE4_E5B9, 0x96de1b173f119089, 0x70c3bca78f27f46c);
    assert(a1 == a2) by (bit_vector)
        requires
            a1 ^ (a1 >> 30) == a2 ^ (a2 >> 30),
    ;
}

proof fn spread_is_high(y: u64)
    requires
        y % 0x100_0000_0000 == 0,
    ensures
        y.wrapping_mul(0x9E37_79B9) % 0x100_0000_0000 == 0,
{
    let m: int = 0x1_0000_0000_0000_0000;
    let k: int = 0x100_0000_0000;
    let p = y.wrapping_mul(0x9E37_79B9) as int;
    let c: int = 0x9E37_79B9;
    let q = y as int / k;
    let z = (y * c) / m;
    assert(y == k * q);
    assert(y * c == m * z + p) by {
        vstd::arithmetic::div_mod::lemma_fundamental_div_mod(y * c, m);
    }
    assert(p == k * (q * c - 0x100_0000 * z)) by (nonlinear_arith)
        requires
            y == k * q,
            y * c == m * z + p,
            m == k * 0x100_0000,
    ;
    vstd::arithmetic::div_mod::lemma_mod_multiples_basic(q * c - 0x100_0000 * z, k);
    assert(k * (q * c - 0x100_0000 * z) == (q * c - 0x100_0000 * z) * k) by (nonlinear_arith);
}

proof fn salts_differ(a: u32, b: u32)
    requires
        scope_salt(a) == scope_salt(b),
    ensures
        a == b,
{
    let (x, y) = (a as u64, b as u64);
    let (p, q) = (x << 40, y << 40);
    assert(p % 0x100_0000_0000 == 0 && q % 0x100_0000_0000 == 0) by (bit_vector)
        requires
            p == x << 40,
            q == y << 40,
    ;
    spread_is_high(p);
    spread_is_high(q);
    let (s, t) = (p.wrapping_mul(0x9E37_79B9), q.wrapping_mul(0x9E37_79B9));
    assert(s == t && x >> 24 == y >> 24) by (bit_vector)
        requires
            s % 0x100_0000_0000 == 0,
            t % 0x100_0000_0000 == 0,
            x <= 0xffff_ffff,
            y <= 0xffff_ffff,
            s ^ (x >> 24) == t ^ (y >> 24),
    ;
    odd_multiples_differ(p, q, 0x9E37_79B9, 0xe85e_e980_144c_bc89, 0x8f9c_eefe);
    assert(x == y) by (bit_vector)
        requires
            x << 40 == y << 40,
            x >> 24 == y >> 24,
            x <= 0xffff_ffff,
            y <= 0xffff_ffff,
    ;
}

/// **Overlay keys separate scopes**: the same node in two scopes has two keys.
pub proof fn overlay_keys_separate_scopes(a: u32, b: u32, node: u64)
    requires
        a != b,
    ensures
        overlay_hash(a, node) != overlay_hash(b, node),
{
    if overlay_hash(a, node) == overlay_hash(b, node) {
        let sa = scope_salt(a);
        let sb = scope_salt(b);
        mixing_is_injective(node ^ sa, node ^ sb);
        assert(sa == sb) by (bit_vector)
            requires
                node ^ sa == node ^ sb,
        ;
        salts_differ(a, b);
    }
}

/// **One node's overlay keys within a scope are its own**: different nodes have
/// different keys.
pub proof fn overlay_keys_separate_nodes(scope: u32, a: u64, b: u64)
    requires
        a != b,
    ensures
        overlay_hash(scope, a) != overlay_hash(scope, b),
{
    if overlay_hash(scope, a) == overlay_hash(scope, b) {
        let s = scope_salt(scope);
        mixing_is_injective(a ^ s, b ^ s);
        assert(a == b) by (bit_vector)
            requires
                a ^ s == b ^ s,
        ;
    }
}

// --- what a filter rules out ----------------------------------------------------------

proof fn a_bit_is_set(words: Seq<u64>, bit: int)
    requires
        words.len() == 8,
        0 <= bit < 512,
    ensures
        with_bit(words, bit).len() == 8,
        with_bit(words, bit)[bit / 64] != 0,
{
    let w = words[bit / 64];
    let s = (bit % 64) as u64;
    assert((w | (1u64 << s)) != 0) by (bit_vector)
        requires
            s < 64,
    ;
}

proof fn patterns_are_blocks(key: u64, n: nat)
    ensures
        pattern(key, n).len() == 8,
        n > 0 ==> exists|w: int| 0 <= w < 8 && #[trigger] pattern(key, n)[w] != 0,
    decreases n,
{
    if n > 0 {
        patterns_are_blocks(key, (n - 1) as nat);
        let bit = hash_of(key, n) as int % 512;
        a_bit_is_set(pattern(key, (n - 1) as nat), bit);
        assert(pattern(key, n)[bit / 64] != 0);
    }
}

/// **A filter over nothing rules out every key**, however it was sized.
pub proof fn an_empty_filter_rules_out_every_key(n: nat, key: u64)
    requires
        n > 0,
    ensures
        !has_all_bits(filter_of(Seq::empty(), n), key),
{
    let blocks = filter_of(Seq::empty(), n);
    patterns_are_blocks(key, 6);
    let p = pattern(key, 6);
    let w = choose|w: int| 0 <= w < 8 && #[trigger] p[w] != 0;
    let b = block_of(key, n);
    assert(0 <= b < n) by {
        vstd::arithmetic::div_mod::lemma_mod_bound((hash_of(key, 0) >> 32) as int, n as int);
    }
    let x = p[w];
    assert(blocks[b][w] == 0);
    assert(0u64 & x == 0) by (bit_vector);
    if has_all_bits(blocks, key) {
        let words = blocks[block_of(key, blocks.len())];
        assert(words == blocks[b]);
        assert(words[w] & pattern(key, K as nat)[w] == pattern(key, K as nat)[w]);
    }
}

/// **A filter looks at one block alone**: what the other blocks hold does not
/// change its answer, and a block that loses no bit loses no key.
pub proof fn a_filter_looks_at_one_block(
    a: Seq<Seq<u64>>,
    b: Seq<Seq<u64>>,
    key: u64,
)
    requires
        a.len() > 0,
        a.len() == b.len(),
        whole_blocks(a),
        whole_blocks(b),
    ensures
        0 <= block_of(key, a.len()) < a.len(),
        a[block_of(key, a.len())] == b[block_of(key, a.len())] ==> has_all_bits(a, key)
            == has_all_bits(b, key),
        (forall|w: int|
            0 <= w < 8 ==> #[trigger] (a[block_of(key, a.len())][w] & b[block_of(
                key,
                a.len(),
            )][w]) == a[block_of(key, a.len())][w]) && has_all_bits(a, key) ==> has_all_bits(
            b,
            key,
        ),
{
    let at = block_of(key, a.len());
    vstd::arithmetic::div_mod::lemma_mod_bound((hash_of(key, 0) >> 32) as int, a.len() as int);
    if (forall|w: int| 0 <= w < 8 ==> #[trigger] (a[at][w] & b[at][w]) == a[at][w])
        && has_all_bits(a, key) {
        let p = pattern(key, K as nat);
        assert forall|w: int| 0 <= w < 8 implies #[trigger] b[at][w] & p[w] == p[w] by {
            let x = a[at][w];
            let y = b[at][w];
            let z = p[w];
            assert(x & y == x);
            assert(x & z == z);
            assert(y & z == z) by (bit_vector)
                requires
                    x & y == x,
                    x & z == z,
            ;
        }
    }
}

/// **A filter has the bits that were asked for, and not a block more**: at most 64
/// a key, at least one block.
pub proof fn a_filter_has_the_bits_asked_for(hint: nat, bits_per_key: nat)
    ensures
        blocks_for(hint, bits_per_key) >= 1,
        clamped(bits_per_key) <= 64,
        bits_per_key <= 64 ==> clamped(bits_per_key) == bits_per_key,
        bits_per_key > 64 ==> clamped(bits_per_key) == 64,
        bits_per_key > 0 ==> 512 * blocks_for(hint, bits_per_key) >= hint * clamped(bits_per_key),
        bits_per_key > 0 && blocks_for(hint, bits_per_key) > 1 ==> 512 * (blocks_for(
            hint,
            bits_per_key,
        ) - 1) < hint * clamped(bits_per_key),
{
    let x = hint * clamped(bits_per_key);
    vstd::arithmetic::div_mod::lemma_fundamental_div_mod((x + 511) as int, 512);
    vstd::arithmetic::div_mod::lemma_mod_bound((x + 511) as int, 512);
}

/// Bit `bit` of a block is set.
pub open spec fn bit_set(words: Seq<u64>, bit: int) -> bool {
    words[bit / 64] & (1u64 << ((bit % 64) as u64)) != 0
}

proof fn setting_a_bit(words: Seq<u64>, bit: int, other: int)
    requires
        words.len() == 8,
        0 <= bit < 512,
        0 <= other < 512,
    ensures
        bit_set(with_bit(words, bit), other) <==> bit_set(words, other) || bit == other,
{
    let w = words[bit / 64];
    let s = (bit % 64) as u64;
    let t = (other % 64) as u64;
    assert((w | (1u64 << s)) & (1u64 << t) != 0 <==> w & (1u64 << t) != 0 || s == t) by (bit_vector)
        requires
            s < 64,
            t < 64,
    ;
    if bit / 64 == other / 64 {
        assert(s == t <==> bit == other);
    }
}

/// **A key sets the bits that its hashes name, and no other**: each hash after the
/// first, which names the block, names one bit of its 512.
pub proof fn a_key_sets_the_bits_its_hashes_name(key: u64, n: nat, bit: int)
    requires
        0 <= bit < 512,
    ensures
        bit_set(pattern(key, n), bit) <==> exists|i: nat|
            1 <= i <= n && (#[trigger] hash_of(key, i)) as int % 512 == bit,
    decreases n,
{
    if n == 0 {
        let s = (bit % 64) as u64;
        assert(0u64 & (1u64 << s) == 0) by (bit_vector);
        assert(pattern(key, 0)[bit / 64] == 0);
    } else {
        let less = (n - 1) as nat;
        a_key_sets_the_bits_its_hashes_name(key, less, bit);
        patterns_are_blocks(key, less);
        let here = hash_of(key, n) as int % 512;
        setting_a_bit(pattern(key, less), here, bit);
        if exists|i: nat| 1 <= i <= n && (#[trigger] hash_of(key, i)) as int % 512 == bit {
            let i = choose|i: nat| 1 <= i <= n && (#[trigger] hash_of(key, i)) as int % 512 == bit;
            if i < n {
                assert(1 <= i <= less && hash_of(key, i) as int % 512 == bit);
            }
        }
    }
}

/// **Each hash is the mix of the one before**, the first that of the key; its upper
/// half names the block.
pub proof fn hashes_follow_one_another(key: u64, n: nat, blocks: nat)
    requires
        blocks > 0,
    ensures
        hash_of(key, 0) == mixed(key),
        hash_of(key, n + 1) == mixed(hash_of(key, n)),
        block_of(key, blocks) == (mixed(key) / 0x1_0000_0000) as int % blocks as int,
{
    let h = mixed(key);
    assert(h >> 32 == h / 0x1_0000_0000) by (bit_vector);
}

/// **Bytes are a filter where the frame says so**: its magic, a count, and as many
/// blocks of 64 bytes.
pub proof fn bytes_are_a_filter_where_framed(data: Seq<u8>)
    ensures
        filter_error(data) is None <==> data.len() >= 8 && u32_at(data, 0) == 0x424C_4631
            && data.len() == 8 + 64 * u32_at(data, 4),
        filter_error(data) == Some(FilterError::Truncated) <==> data.len() < 8,
        filter_error(data) matches Some(FilterError::WrongMagic(m)) ==> m == u32_at(data, 0),
        filter_error(data) is None ==> decoded(data).len() == u32_at(data, 4),
{
}

/// **A filter that was built answers yes to every key it was built over**, and one
/// built over nothing to none.
pub proof fn a_built_filter_answers_for_its_keys(
    keys: &[u64],
    none: &[u64],
    hint: usize,
    bits: usize,
    f: BlockedFilter,
    g: BlockedFilter,
    key: u64,
    yes: bool,
    no: bool,
)
    requires
        call_ensures(BlockedFilter::build, (keys, hint, bits), f),
        call_ensures(BlockedFilter::build, (none, hint, bits), g),
        keys@.contains(key),
        none@.len() == 0,
        call_ensures(BlockedFilter::may_contain, (&f, key), yes),
        call_ensures(BlockedFilter::may_contain, (&g, key), no),
    ensures
        yes,
        !no,
{
    a_filter_has_the_bits_asked_for(hint as nat, bits as nat);
    let n = blocks_for(hint as nat, bits as nat);
    every_member_is_reported_present(keys@, n, key);
    assert(none@ =~= Seq::empty());
    an_empty_filter_rules_out_every_key(n, key);
}

/// **A filter that was encoded decodes to itself.**
pub proof fn an_encoded_filter_decodes(
    f: BlockedFilter,
    b: bytes::Bytes,
    data: &[u8],
    r: Result<BlockedFilter, FilterError>,
)
    requires
        f@.len() <= u32::MAX,
        whole_blocks(f@),
        call_ensures(BlockedFilter::encode, (&f,), b),
        data@ == payload_content(b),
        call_ensures(BlockedFilter::decode, (data,), r),
    ensures
        r matches Ok(g) && g@ == f@,
{
    filter_reads_back(f@);
}

} // verus!
