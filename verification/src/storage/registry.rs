//! Encodings for the `shared root -> scopes` registry.
//!
//! The registry answers "which tenants keyed overlay state on this shared
//! root?", so a global merge notifies only those scopes rather than
//! broadcasting to thousands.
//!
//! Two encodings live here behind [`RegistryEncoding`]. The blob type is the
//! switch: a Puffin blob is self-describing, so a base can carry either, and a
//! reader that recognises neither falls back to rebuilding the mapping in
//! memory. Runs in a layer stack are read independently, so a stack may mix
//! encodings.

use std::ops::Range;
use vstd::prelude::*;

use super::blocks::{at_most, entries_ascend, entry_le, holds_at, parse_error, BlockCursor, BlockError, BlockIndex};
use super::packing::{index_bytes, index_fits, index_reads_back, values_with, BlockWriter};
use super::payload::{freeze, payload_content};
use super::wire::{le32, le64, le_len, put_u32_le, put_u64_le};
use crate::graph::types::{NodeId, ScopeId, ScopeList};
use crate::text::{quote, quoted, same_text};

verus! {

/// Default target block size.
///
/// A block is the unit a lookup decodes: larger blocks mean a smaller in-heap
/// index and a longer scan.
pub const BLOCK_BYTES: usize = 512;

/// Payload: `u64 LE` entry count, then `count` x (`u64 LE` root, `u32 LE`
/// scope), fixed 12-byte stride.
pub const FLAT_BLOB_TYPE: &'static str = "blaze-registry-v1";

/// Delta-varint records in offset-indexed blocks.
pub const BLOCKED_BLOB_TYPE: &'static str = "blaze-registry-v2";

/// Which on-disk encoding a writer emits.
#[derive(Clone, Copy, Debug, PartialEq, Eq, Structural)]
pub enum RegistryEncoding {
    /// `blaze-registry-v1`: fixed 12-byte `(u64 root, u32 scope)` stride.
    Flat,
    /// `blaze-registry-v2`: delta-varint records in offset-indexed blocks.
    Blocked,
}

impl Default for RegistryEncoding {
    fn default() -> (e: RegistryEncoding)
        ensures
            e == RegistryEncoding::Blocked,
    {
        RegistryEncoding::Blocked
    }
}

/// The encoding a name stands for.
pub open spec fn encoding_named(s: Seq<char>) -> Option<RegistryEncoding> {
    if s == "flat"@ || s == "v1"@ {
        Some(RegistryEncoding::Flat)
    } else if s == "blocked"@ || s == "varint"@ || s == "v2"@ {
        Some(RegistryEncoding::Blocked)
    } else {
        None
    }
}

impl RegistryEncoding {
    /// The encoding's name.
    pub fn as_str(&self) -> (s: &'static str)
        ensures
            s@ == match *self {
                RegistryEncoding::Flat => "flat"@,
                RegistryEncoding::Blocked => "blocked"@,
            },
    {
        match self {
            RegistryEncoding::Flat => "flat",
            RegistryEncoding::Blocked => "blocked",
        }
    }

    /// The encoding that `s` names; otherwise a message quoting `s`.
    pub fn from_str(s: &str) -> (r: Result<RegistryEncoding, String>)
        ensures
            match r {
                Ok(e) => encoding_named(s@) == Some(e),
                Err(message) => encoding_named(s@) is None && message@
                    == "unknown registry encoding "@ + quoted(s@),
            },
    {
        if same_text(s, "flat") || same_text(s, "v1") {
            Ok(RegistryEncoding::Flat)
        } else if same_text(s, "blocked") || same_text(s, "varint") || same_text(s, "v2") {
            Ok(RegistryEncoding::Blocked)
        } else {
            let mut message = String::from_str("unknown registry encoding ");
            message.append(quote(s).as_str());
            Err(message)
        }
    }
}

// --- what a payload holds ----------------------------------------------------------

/// Flat entries, one after the other.
pub open spec fn stride_bytes(entries: Seq<(NodeId, ScopeId)>) -> Seq<u8>
    decreases entries.len(),
{
    if entries.len() == 0 {
        Seq::empty()
    } else {
        stride_bytes(entries.drop_last()) + (le64(entries.last().0) + le32(entries.last().1))
    }
}

/// A flat payload.
pub open spec fn flat_bytes(entries: Seq<(NodeId, ScopeId)>) -> Seq<u8> {
    le64(entries.len() as u64) + stride_bytes(entries)
}

/// Entries with the scope as wide as a block's values.
pub open spec fn widened(entries: Seq<(NodeId, ScopeId)>) -> Seq<(u64, u64)> {
    entries.map_values(|e: (NodeId, ScopeId)| (e.0, e.1 as u64))
}

/// The payload that `entries` are written as.
pub open spec fn registry_bytes(
    encoding: RegistryEncoding,
    entries: Seq<(NodeId, ScopeId)>,
    target: nat,
) -> Seq<u8> {
    match encoding {
        RegistryEncoding::Flat => flat_bytes(entries),
        RegistryEncoding::Blocked => index_bytes(widened(entries), target),
    }
}

/// The blob type an encoding is written under.
pub open spec fn registry_type(encoding: RegistryEncoding) -> Seq<char> {
    match encoding {
        RegistryEncoding::Flat => FLAT_BLOB_TYPE@,
        RegistryEncoding::Blocked => BLOCKED_BLOB_TYPE@,
    }
}

/// Entries in ascending `(root, scope)` order; repeats are allowed.
pub open spec fn registry_ascends(entries: Seq<(NodeId, ScopeId)>) -> bool {
    forall|i: int, j: int|
        0 <= i < j < entries.len() ==> registry_le(#[trigger] entries[i], #[trigger] entries[j])
}

pub open spec fn registry_le(a: (NodeId, ScopeId), b: (NodeId, ScopeId)) -> bool {
    a.0 < b.0 || (a.0 == b.0 && a.1 <= b.1)
}

/// What the entries are after one more was pushed: the blocked form drops an
/// exact repeat of the last entry, the flat form writes a repeat as a repeat.
pub open spec fn pushed(
    encoding: RegistryEncoding,
    entries: Seq<(NodeId, ScopeId)>,
    e: (NodeId, ScopeId),
) -> Seq<(NodeId, ScopeId)> {
    if encoding == RegistryEncoding::Blocked && entries.len() > 0 && entries.last() == e {
        entries
    } else {
        entries.push(e)
    }
}

pub proof fn stride_bytes_len(entries: Seq<(NodeId, ScopeId)>)
    ensures
        stride_bytes(entries).len() == 12 * entries.len(),
    decreases entries.len(),
{
    if entries.len() > 0 {
        stride_bytes_len(entries.drop_last());
        le_len(entries.last().0 as nat, 8);
        le_len(entries.last().1 as nat, 4);
    }
}

// --- writing -------------------------------------------------------------------------

/// Streaming registry encoder. The blocked form needs entries in ascending
/// `(root, scope)` order, the order both the compactor's merge and the
/// snapshot writer produce.
pub struct RegistryWriter {
    encoding: RegistryEncoding,
    /// Flat: the entries, encoded, and how many there are.
    flat: Vec<u8>,
    flat_count: u64,
    /// Blocked: the index being built.
    blocked: BlockWriter,
    kept: Ghost<Seq<(NodeId, ScopeId)>>,
}

impl RegistryWriter {
    pub closed spec fn kept(&self) -> Seq<(NodeId, ScopeId)> {
        self.kept@
    }

    pub closed spec fn encoding(&self) -> RegistryEncoding {
        self.encoding
    }

    pub closed spec fn target(&self) -> nat {
        self.blocked.target()
    }

    pub closed spec fn wf(&self) -> bool {
        &&& self.blocked.wf()
        &&& match self.encoding {
            RegistryEncoding::Flat => self.flat@ == stride_bytes(self.kept@) && self.flat_count
                == self.kept@.len(),
            RegistryEncoding::Blocked => self.blocked.entries() == widened(self.kept@),
        }
    }

    /// A flat payload that is in memory has fewer entries than the counter
    /// can count.
    pub proof fn flat_count_is_exact(&self)
        requires
            self.wf(),
            self.encoding() == RegistryEncoding::Flat,
        ensures
            self.kept().len() <= u64::MAX,
    {
    }

    /// A writer of the default block size.
    pub fn new(encoding: RegistryEncoding) -> (w: RegistryWriter)
        ensures
            w.wf(),
            w.encoding() == encoding,
            w.kept() == Seq::<(NodeId, ScopeId)>::empty(),
            w.target() == BLOCK_BYTES,
    {
        RegistryWriter::with_block_size(encoding, BLOCK_BYTES)
    }

    /// A writer targeting a non-default block size. Only the writer needs to
    /// know it: a block's extent comes from the offsets in the payload, so runs
    /// written at different sizes coexist.
    pub fn with_block_size(encoding: RegistryEncoding, block_bytes: usize) -> (w: RegistryWriter)
        ensures
            w.wf(),
            w.encoding() == encoding,
            w.kept() == Seq::<(NodeId, ScopeId)>::empty(),
            w.target() == block_bytes,
    {
        let w = RegistryWriter {
            encoding,
            flat: Vec::new(),
            flat_count: 0,
            blocked: BlockWriter::new(block_bytes),
            kept: Ghost(Seq::empty()),
        };
        assert(widened(w.kept@) =~= Seq::empty());
        w
    }

    /// How many entries were kept, modulo the counter's width.
    pub fn entries(&self) -> (n: u64)
        requires
            self.wf(),
        ensures
            n == self.kept().len() % 0x1_0000_0000_0000_0000,
    {
        match self.encoding {
            RegistryEncoding::Flat => {
                proof {
                    stride_bytes_len(self.kept@);
                }
                self.flat_count
            },
            RegistryEncoding::Blocked => self.blocked.count(),
        }
    }

    /// Adds an entry.
    pub fn push(&mut self, root: NodeId, scope: ScopeId)
        requires
            old(self).wf(),
            old(self).encoding() == RegistryEncoding::Blocked && old(self).kept().len() > 0
                ==> registry_le(old(self).kept().last(), (root, scope)),
        ensures
            final(self).wf(),
            final(self).encoding() == old(self).encoding(),
            final(self).target() == old(self).target(),
            final(self).kept() == pushed(old(self).encoding(), old(self).kept(), (root, scope)),
    {
        let ghost kept = self.kept@;
        let ghost e = (root, scope);
        match self.encoding {
            RegistryEncoding::Flat => {
                put_u64_le(&mut self.flat, root);
                put_u32_le(&mut self.flat, scope);
                proof {
                    assert(kept.push(e).drop_last() =~= kept);
                    assert(self.flat@ =~= stride_bytes(kept.push(e)));
                    stride_bytes_len(kept.push(e));
                }
                let len: usize = self.flat.len();
                assert(12 * (self.flat_count + 1) == len);
                self.flat_count = self.flat_count + 1;
                self.kept = Ghost(kept.push(e));
            },
            RegistryEncoding::Blocked => {
                proof {
                    if kept.len() > 0 {
                        assert(widened(kept).last() == (kept.last().0, kept.last().1 as u64));
                    }
                    assert(widened(kept.push(e)) =~= widened(kept).push((root, scope as u64)));
                }
                let repeat: bool = match self.blocked.last() {
                    Some(last) => last.0 == root && last.1 == scope as u64,
                    None => false,
                };
                if repeat {
                    return;
                }
                self.blocked.push(root, scope as u64);
                self.kept = Ghost(kept.push(e));
            },
        }
    }

    /// The blob type and payload, or `None` when nothing was pushed.
    pub fn finish(self) -> (r: Option<(&'static str, bytes::Bytes)>)
        requires
            self.wf(),
        ensures
            match r {
                None => self.kept().len() == 0,
                Some(blob) => {
                    &&& self.kept().len() > 0
                    &&& blob.0@ == registry_type(self.encoding())
                    &&& payload_content(blob.1) == registry_bytes(
                        self.encoding(),
                        self.kept(),
                        self.target(),
                    )
                    &&& self.encoding() == RegistryEncoding::Blocked && self.kept().len()
                        <= u64::MAX ==> index_fits(widened(self.kept()), self.target())
                },
            },
    {
        match self.encoding {
            RegistryEncoding::Flat => {
                if self.flat_count == 0 {
                    return None;
                }
                let mut out: Vec<u8> = Vec::new();
                put_u64_le(&mut out, self.flat_count);
                super::wire::put_slice(&mut out, self.flat.as_slice());
                assert(out@ =~= flat_bytes(self.kept@));
                Some((FLAT_BLOB_TYPE, freeze(out)))
            },
            RegistryEncoding::Blocked => match self.blocked.finish() {
                None => None,
                Some(out) => Some((BLOCKED_BLOB_TYPE, freeze(out))),
            },
        }
    }
}

// --- reading -------------------------------------------------------------------------

/// A block's values as scopes.
pub open spec fn narrowed(values: Seq<u64>) -> Seq<ScopeId> {
    values.map_values(|v: u64| v as ScopeId)
}

/// A block's entries as registry entries.
pub open spec fn registry_entries(entries: Seq<(u64, u64)>) -> Seq<(NodeId, ScopeId)> {
    entries.map_values(|e: (u64, u64)| (e.0, e.1 as ScopeId))
}

/// Reader over a [`RegistryEncoding::Blocked`] payload inside a mapping.
///
/// Blocks are variable-length, since a root's scope list is never split, so
/// this carries its own offsets. Offsets and first roots are on the heap, so
/// narrowing to a block touches no page of the mapping.
#[derive(Debug)]
pub struct BlockedRegistry {
    pub index: BlockIndex,
}

impl BlockedRegistry {
    /// What a lookup of `root` answers: nothing where a record that had to be
    /// read is malformed.
    pub open spec fn answer(&self, data: Seq<u8>, root: NodeId) -> Seq<ScopeId> {
        match self.index.found(data, root, usize::MAX as nat) {
            Some(values) => narrowed(values),
            None => Seq::empty(),
        }
    }

    /// Every entry, in order, up to the first malformed byte.
    pub open spec fn walk(&self, data: Seq<u8>) -> Seq<(NodeId, ScopeId)> {
        registry_entries(self.index.entries(data))
    }

    /// Opens the payload that is at `range` of the mapping `data`.
    pub fn parse(data: &[u8], range: Range<usize>) -> (r: Result<BlockedRegistry, BlockError>)
        ensures
            match r {
                Err(e) => parse_error(data@, range.start as int, range.end as int) == Some(e),
                Ok(reg) => parse_error(data@, range.start as int, range.end as int) is None
                    && reg.index.describes(data@, range.start as int) && reg.index.fits(data@.len()),
            },
    {
        match BlockIndex::parse(data, range.start, range.end) {
            Ok(index) => Ok(BlockedRegistry { index }),
            Err(e) => Err(e),
        }
    }

    /// Entries, that is `(root, scope)` pairs, not roots.
    pub fn count(&self) -> (n: usize)
        ensures
            n == self.index.count as usize,
    {
        self.index.count as usize
    }

    /// Heap held by the offsets and first roots.
    pub fn heap_bytes(&self) -> (n: u64)
        requires
            exists|len: nat| #[trigger] self.index.fits(len),
        ensures
            n == self.index.heap(),
    {
        self.index.heap_bytes()
    }

    /// All scopes recorded for `root`.
    ///
    /// Binary search over the in-heap first roots picks the one block that can
    /// hold it; records are then decoded forward until the scan passes `root`.
    /// A malformed block yields no scopes: losing a notification is
    /// recoverable where crashing is not.
    pub fn scopes_for(&self, data: &[u8], root: NodeId) -> (l: ScopeList)
        requires
            self.index.fits(data@.len()),
        ensures
            l@ == self.answer(data@, root),
    {
        let mut out: Vec<ScopeId> = Vec::new();
        match self.index.find(data, root, usize::MAX) {
            None => {},
            Some(values) => {
                let mut i: usize = 0;
                assert(narrowed(values@.take(0)) =~= Seq::empty());
                while i < values.len()
                    invariant
                        i <= values.len(),
                        out@ == narrowed(values@.take(i as int)),
                    decreases values.len() - i,
                {
                    let v: u64 = values[i];
                    out.push(v as ScopeId);
                    assert(values@.take(i + 1) =~= values@.take(i as int).push(v));
                    assert(out@ =~= narrowed(values@.take(i + 1)));
                    i += 1;
                }
                assert(values@.take(i as int) =~= values@);
            },
        }
        ScopeList::from_vec(out)
    }

    /// A walk over every entry.
    pub fn iter<'a>(&'a self, data: &'a [u8]) -> (it: BlockedIter<'a>)
        requires
            self.index.fits(data@.len()),
        ensures
            it.wf(),
            it.remaining() == self.walk(data@),
    {
        let cursor = self.index.start();
        let it = BlockedIter { data, reg: self, cursor };
        assert(self.index.entries_from(data@, cursor) == self.index.entries(data@));
        it
    }
}

/// Every `(root, scope)` in ascending order, decoded block by block with
/// nothing buffered.
pub struct BlockedIter<'a> {
    data: &'a [u8],
    reg: &'a BlockedRegistry,
    cursor: BlockCursor,
}

impl<'a> BlockedIter<'a> {
    pub closed spec fn wf(&self) -> bool {
        self.reg.index.fits(self.data@.len())
    }

    /// The entries still to come.
    pub closed spec fn remaining(&self) -> Seq<(NodeId, ScopeId)> {
        registry_entries(self.reg.index.entries_from(self.data@, self.cursor))
    }

    /// The next entry.
    pub fn next(&mut self) -> (r: Option<(NodeId, ScopeId)>)
        requires
            old(self).wf(),
        ensures
            final(self).wf(),
            match r {
                None => old(self).remaining().len() == 0,
                Some(e) => old(self).remaining().len() > 0 && e == old(self).remaining()[0]
                    && final(self).remaining() == old(self).remaining().drop_first(),
            },
    {
        let ghost before = self.reg.index.entries_from(self.data@, self.cursor);
        match self.reg.index.next(self.data, &mut self.cursor) {
            None => None,
            Some(e) => {
                assert(registry_entries(before.drop_first()) =~= registry_entries(
                    before,
                ).drop_first());
                Some((e.0, e.1 as ScopeId))
            },
        }
    }
}

// --- laws ----------------------------------------------------------------------------

/// The scopes that `entries` has for `root`, in order.
pub open spec fn scopes_with(entries: Seq<(NodeId, ScopeId)>, root: NodeId) -> Seq<ScopeId>
    decreases entries.len(),
{
    if entries.len() == 0 {
        Seq::empty()
    } else if entries.last().0 == root {
        scopes_with(entries.drop_last(), root).push(entries.last().1)
    } else {
        scopes_with(entries.drop_last(), root)
    }
}

proof fn narrowed_values(entries: Seq<(NodeId, ScopeId)>, root: NodeId)
    ensures
        narrowed(values_with(widened(entries), root)) == scopes_with(entries, root),
        values_with(widened(entries), root).len() <= entries.len(),
    decreases entries.len(),
{
    let w = widened(entries);
    if entries.len() == 0 {
        assert(narrowed(values_with(w, root)) =~= Seq::empty());
    } else {
        let front = entries.drop_last();
        narrowed_values(front, root);
        assert(w.drop_last() =~= widened(front));
        assert(narrowed(values_with(w, root)) =~= scopes_with(entries, root));
    }
}

pub proof fn widened_ascends(entries: Seq<(NodeId, ScopeId)>)
    requires
        registry_ascends(entries),
    ensures
        entries_ascend(widened(entries)),
{
    let w = widened(entries);
    assert forall|i: int, j: int| 0 <= i < j < w.len() implies entry_le(
        #[trigger] w[i],
        #[trigger] w[j],
    ) by {
        assert(registry_le(entries[i], entries[j]));
    }
}

/// **A written registry answers what was written**: for every root, present or
/// absent, the blocked reader gives exactly the scopes a scan of the entries
/// gives, and a walk gives the entries back in order.
pub proof fn blocked_registry_reads_back(
    entries: Seq<(NodeId, ScopeId)>,
    target: nat,
    data: Seq<u8>,
    start: int,
)
    requires
        index_fits(widened(entries), target),
        entries.len() <= usize::MAX,
        holds_at(data, start, index_bytes(widened(entries), target)),
    ensures
        parse_error(data, start, start + index_bytes(widened(entries), target).len()) is None,
        forall|reg: BlockedRegistry|
            #![trigger reg.index.describes(data, start)]
            reg.index.describes(data, start) && reg.index.fits(data.len()) ==> {
                &&& reg.walk(data) == entries
                &&& reg.index.count == entries.len()
                &&& forall|root: NodeId| #[trigger]
                    reg.answer(data, root) == scopes_with(entries, root)
            },
{
    let w = widened(entries);
    index_reads_back(w, target, data, start);
    assert forall|reg: BlockedRegistry|
        #![trigger reg.index.describes(data, start)]
        reg.index.describes(data, start) && reg.index.fits(data.len()) implies {
        &&& reg.walk(data) == entries
        &&& reg.index.count == entries.len()
        &&& forall|root: NodeId| #[trigger] reg.answer(data, root) == scopes_with(entries, root)
    } by {
        assert(reg.index.entries(data) == w);
        assert(registry_entries(w) =~= entries);
        assert forall|root: NodeId| #[trigger] reg.answer(data, root) == scopes_with(
            entries,
            root,
        ) by {
            assert(reg.index.found(data, root, usize::MAX as nat) == Some(
                at_most(values_with(w, root), usize::MAX as nat),
            ));
            narrowed_values(entries, root);
        }
    }
}

/// **The two forms of a registry are told apart by type and by name.**
pub proof fn registry_forms_are_told_apart()
    ensures
        registry_type(RegistryEncoding::Flat) != registry_type(RegistryEncoding::Blocked),
        encoding_named("flat"@) == Some(RegistryEncoding::Flat),
        encoding_named("v1"@) == Some(RegistryEncoding::Flat),
        encoding_named("blocked"@) == Some(RegistryEncoding::Blocked),
        encoding_named("varint"@) == Some(RegistryEncoding::Blocked),
        encoding_named("v2"@) == Some(RegistryEncoding::Blocked),
        forall|s: Seq<char>| #[trigger]
            encoding_named(s) is Some <==> s == "flat"@ || s == "v1"@ || s == "blocked"@ || s
                == "varint"@ || s == "v2"@,
{
    reveal_strlit("flat");
    reveal_strlit("v1");
    reveal_strlit("blocked");
    reveal_strlit("varint");
    reveal_strlit("v2");
    reveal_strlit("blaze-registry-v1");
    reveal_strlit("blaze-registry-v2");
    assert("flat"@.len() == 4 && "v1"@.len() == 2 && "blocked"@.len() == 7 && "varint"@.len() == 6
        && "v2"@.len() == 2);
    assert("v1"@[1] == '1' && "v2"@[1] == '2');
    let a = FLAT_BLOB_TYPE@;
    let b = BLOCKED_BLOB_TYPE@;
    assert(a[a.len() - 1] == '1' && b[b.len() - 1] == '2');
}

/// **A flat registry is its count and its entries**, each a root and a scope in
/// twelve bytes.
pub proof fn a_flat_registry_is_its_count_and_its_entries(entries: Seq<(NodeId, ScopeId)>, i: int)
    requires
        0 <= i < entries.len(),
    ensures
        ({
            let data = flat_bytes(entries);
            &&& data.len() == 8 + 12 * entries.len()
            &&& data.subrange(0, 8) == le64(entries.len() as u64)
            &&& data.subrange(8 + 12 * i, 16 + 12 * i) == le64(entries[i].0)
            &&& data.subrange(16 + 12 * i, 20 + 12 * i) == le32(entries[i].1)
        }),
{
    let data = flat_bytes(entries);
    let all = stride_bytes(entries);
    le_len(entries.len() as u64 as nat, 8);
    stride_bytes_len(entries);
    a_stride_is_there(entries, i);
    assert(data.subrange(0, 8) =~= le64(entries.len() as u64));
    assert(data.subrange(8 + 12 * i, 16 + 12 * i) =~= all.subrange(12 * i, 12 * i + 8));
    assert(data.subrange(16 + 12 * i, 20 + 12 * i) =~= all.subrange(12 * i + 8, 12 * i + 12));
}

proof fn a_stride_is_there(entries: Seq<(NodeId, ScopeId)>, i: int)
    requires
        0 <= i < entries.len(),
    ensures
        stride_bytes(entries).subrange(12 * i, 12 * i + 8) == le64(entries[i].0),
        stride_bytes(entries).subrange(12 * i + 8, 12 * i + 12) == le32(entries[i].1),
    decreases entries.len(),
{
    let front = entries.drop_last();
    let all = stride_bytes(entries);
    let before = stride_bytes(front);
    stride_bytes_len(front);
    stride_bytes_len(entries);
    le_len(entries.last().0 as nat, 8);
    le_len(entries.last().1 as nat, 4);
    if i == entries.len() - 1 {
        assert(all.subrange(12 * i, 12 * i + 8) =~= le64(entries[i].0));
        assert(all.subrange(12 * i + 8, 12 * i + 12) =~= le32(entries[i].1));
    } else {
        a_stride_is_there(front, i);
        assert(all.subrange(12 * i, 12 * i + 8) =~= before.subrange(12 * i, 12 * i + 8));
        assert(all.subrange(12 * i + 8, 12 * i + 12) =~= before.subrange(
            12 * i + 8,
            12 * i + 12,
        ));
    }
}

} // verus!
