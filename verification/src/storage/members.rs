//! Encodings for the parent-ordered **member index**.
//!
//! The index is the routing table's pairs re-sorted by parent, so the children
//! of a node are contiguous and a component can be listed by walking down the
//! parent forest. The blocked form is the registry's layout with `u64` values:
//! delta-varint records in offset-indexed blocks.

use std::ops::Range;
use vstd::prelude::*;

use super::blocks::{at_most, entry_le, holds_at, parse_error, BlockError, BlockIndex};
use super::packing::{index_bytes, index_fits, index_reads_back, values_with, BlockWriter};
use super::payload::{freeze, payload_content};
use super::registry::BLOCK_BYTES;
use super::table::{table_bytes, TableWriter};
use crate::graph::types::NodeId;
use crate::text::{quote, quoted, same_text};

verus! {

/// Which on-disk encoding a writer emits for the member index.
#[derive(Clone, Copy, Debug, PartialEq, Eq, Structural)]
pub enum MemberEncoding {
    /// `blaze-*-members-v1`: fixed 16-byte `(u64 parent, u64 child)` stride.
    Flat,
    /// `blaze-*-members-v2`: delta-varint records in offset-indexed blocks.
    Blocked,
}

impl Default for MemberEncoding {
    fn default() -> (e: MemberEncoding)
        ensures
            e == MemberEncoding::Blocked,
    {
        MemberEncoding::Blocked
    }
}

/// The encoding a name stands for.
pub open spec fn encoding_named(s: Seq<char>) -> Option<MemberEncoding> {
    if s == "flat"@ || s == "v1"@ {
        Some(MemberEncoding::Flat)
    } else if s == "blocked"@ || s == "varint"@ || s == "v2"@ {
        Some(MemberEncoding::Blocked)
    } else {
        None
    }
}

impl MemberEncoding {
    /// The encoding's name.
    pub fn as_str(&self) -> (s: &'static str)
        ensures
            s@ == match *self {
                MemberEncoding::Flat => "flat"@,
                MemberEncoding::Blocked => "blocked"@,
            },
    {
        match self {
            MemberEncoding::Flat => "flat",
            MemberEncoding::Blocked => "blocked",
        }
    }

    /// The encoding that `s` names; otherwise a message quoting `s`.
    pub fn from_str(s: &str) -> (r: Result<MemberEncoding, String>)
        ensures
            match r {
                Ok(e) => encoding_named(s@) == Some(e),
                Err(message) => encoding_named(s@) is None && message@
                    == "unknown member index encoding "@ + quoted(s@),
            },
    {
        if same_text(s, "flat") || same_text(s, "v1") {
            Ok(MemberEncoding::Flat)
        } else if same_text(s, "blocked") || same_text(s, "varint") || same_text(s, "v2") {
            Ok(MemberEncoding::Blocked)
        } else {
            let mut message = String::from_str("unknown member index encoding ");
            message.append(quote(s).as_str());
            Err(message)
        }
    }
}

/// Which tier a member blob describes. Only affects the blob type it is
/// written under; the payload layout is identical.
#[derive(Clone, Copy, Debug, PartialEq, Eq, Structural)]
pub enum Tier {
    Shared,
    Overlay,
}

pub const SHARED_FLAT_BLOB_TYPE: &'static str = "blaze-shared-members-v1";

pub const SHARED_BLOCKED_BLOB_TYPE: &'static str = "blaze-shared-members-v2";

pub const OVERLAY_FLAT_BLOB_TYPE: &'static str = "blaze-overlay-members-v1";

pub const OVERLAY_BLOCKED_BLOB_TYPE: &'static str = "blaze-overlay-members-v2";

/// The blob type a member index is written under.
pub open spec fn members_type(encoding: MemberEncoding, tier: Tier) -> Seq<char> {
    match (tier, encoding) {
        (Tier::Shared, MemberEncoding::Flat) => SHARED_FLAT_BLOB_TYPE@,
        (Tier::Shared, MemberEncoding::Blocked) => SHARED_BLOCKED_BLOB_TYPE@,
        (Tier::Overlay, MemberEncoding::Flat) => OVERLAY_FLAT_BLOB_TYPE@,
        (Tier::Overlay, MemberEncoding::Blocked) => OVERLAY_BLOCKED_BLOB_TYPE@,
    }
}

/// A blob of this type is a member index of the shared tier.
pub open spec fn is_shared_members(t: Seq<char>) -> bool {
    t == SHARED_FLAT_BLOB_TYPE@ || t == SHARED_BLOCKED_BLOB_TYPE@
}

/// A blob of this type is a member index of an overlay.
pub open spec fn is_overlay_members(t: Seq<char>) -> bool {
    t == OVERLAY_FLAT_BLOB_TYPE@ || t == OVERLAY_BLOCKED_BLOB_TYPE@
}

/// The payload that `(parent, child)` pairs are written as.
pub open spec fn members_bytes(
    encoding: MemberEncoding,
    pairs: Seq<(NodeId, NodeId)>,
    target: nat,
) -> Seq<u8> {
    match encoding {
        MemberEncoding::Flat => table_bytes(pairs),
        MemberEncoding::Blocked => index_bytes(pairs, target),
    }
}

/// Builds one member-index payload from `(parent, child)` pairs. The blocked
/// form needs them in ascending order.
pub struct MemberWriter {
    encoding: MemberEncoding,
    tier: Tier,
    /// Flat: the payload, built in place.
    flat: TableWriter,
    /// Blocked: the index being built.
    blocked: BlockWriter,
}

impl MemberWriter {
    pub closed spec fn pushed(&self) -> Seq<(NodeId, NodeId)> {
        match self.encoding {
            MemberEncoding::Flat => self.flat.pairs(),
            MemberEncoding::Blocked => self.blocked.entries(),
        }
    }

    pub closed spec fn encoding(&self) -> MemberEncoding {
        self.encoding
    }

    pub closed spec fn tier(&self) -> Tier {
        self.tier
    }

    pub closed spec fn target(&self) -> nat {
        self.blocked.target()
    }

    pub closed spec fn wf(&self) -> bool {
        self.flat.wf() && self.blocked.wf()
    }

    /// A writer of the default block size.
    pub fn new(encoding: MemberEncoding, tier: Tier) -> (w: MemberWriter)
        ensures
            w.wf(),
            w.encoding() == encoding,
            w.tier() == tier,
            w.target() == BLOCK_BYTES,
            w.pushed() == Seq::<(NodeId, NodeId)>::empty(),
    {
        MemberWriter::with_block_size(encoding, tier, BLOCK_BYTES)
    }

    /// A writer targeting a non-default block size, which readers need not
    /// know.
    pub fn with_block_size(encoding: MemberEncoding, tier: Tier, block_bytes: usize) -> (w:
        MemberWriter)
        ensures
            w.wf(),
            w.encoding() == encoding,
            w.tier() == tier,
            w.target() == block_bytes,
            w.pushed() == Seq::<(NodeId, NodeId)>::empty(),
    {
        MemberWriter {
            encoding,
            tier,
            flat: TableWriter::new(),
            blocked: BlockWriter::new(block_bytes),
        }
    }

    /// How many pairs were pushed, modulo the counter's width.
    pub fn pairs(&self) -> (n: u64)
        requires
            self.wf(),
        ensures
            n == self.pushed().len() % 0x1_0000_0000_0000_0000,
    {
        match self.encoding {
            MemberEncoding::Flat => self.flat.count(),
            MemberEncoding::Blocked => self.blocked.count(),
        }
    }

    /// Adds a pair.
    pub fn push(&mut self, parent: NodeId, child: NodeId)
        requires
            old(self).wf(),
            old(self).encoding() == MemberEncoding::Blocked && old(self).pushed().len() > 0
                ==> entry_le(old(self).pushed().last(), (parent, child)),
        ensures
            final(self).wf(),
            final(self).encoding() == old(self).encoding(),
            final(self).tier() == old(self).tier(),
            final(self).target() == old(self).target(),
            final(self).pushed() == old(self).pushed().push((parent, child)),
    {
        match self.encoding {
            MemberEncoding::Flat => self.flat.push(parent, child),
            MemberEncoding::Blocked => self.blocked.push(parent, child),
        }
    }

    /// The blob type and payload, or `None` when nothing was pushed.
    pub fn finish(self) -> (r: Option<(&'static str, bytes::Bytes)>)
        requires
            self.wf(),
        ensures
            match r {
                None => self.pushed().len() == 0,
                Some(blob) => {
                    &&& self.pushed().len() > 0
                    &&& blob.0@ == members_type(self.encoding(), self.tier())
                    &&& payload_content(blob.1) == members_bytes(
                        self.encoding(),
                        self.pushed(),
                        self.target(),
                    )
                    &&& self.encoding() == MemberEncoding::Blocked && self.pushed().len()
                        <= u64::MAX ==> index_fits(self.pushed(), self.target())
                },
            },
    {
        let flat_type = match self.tier {
            Tier::Shared => SHARED_FLAT_BLOB_TYPE,
            Tier::Overlay => OVERLAY_FLAT_BLOB_TYPE,
        };
        let blocked_type = match self.tier {
            Tier::Shared => SHARED_BLOCKED_BLOB_TYPE,
            Tier::Overlay => OVERLAY_BLOCKED_BLOB_TYPE,
        };
        match self.encoding {
            MemberEncoding::Flat => {
                if self.flat.count() == 0 {
                    return None;
                }
                Some((flat_type, freeze(self.flat.close())))
            },
            MemberEncoding::Blocked => match self.blocked.finish() {
                None => None,
                Some(out) => Some((blocked_type, freeze(out))),
            },
        }
    }
}

/// Reader over a [`MemberEncoding::Blocked`] payload inside a mapping.
#[derive(Debug)]
pub struct BlockedMembers {
    pub index: BlockIndex,
}

impl BlockedMembers {
    /// The first `limit` children recorded for `parent`: none where a record
    /// that had to be read is malformed.
    pub open spec fn answer(&self, data: Seq<u8>, parent: NodeId, limit: nat) -> Seq<NodeId> {
        match self.index.found(data, parent, limit) {
            Some(values) => values,
            None => Seq::empty(),
        }
    }

    /// Opens the payload that is at `range` of the mapping `data`.
    pub fn parse(data: &[u8], range: Range<usize>) -> (r: Result<BlockedMembers, BlockError>)
        ensures
            match r {
                Err(e) => parse_error(data@, range.start as int, range.end as int) == Some(e),
                Ok(m) => parse_error(data@, range.start as int, range.end as int) is None
                    && m.index.describes(data@, range.start as int) && m.index.fits(data@.len()),
            },
    {
        match BlockIndex::parse(data, range.start, range.end) {
            Ok(index) => Ok(BlockedMembers { index }),
            Err(e) => Err(e),
        }
    }

    /// How many pairs the payload has.
    pub fn pairs(&self) -> (n: usize)
        ensures
            n == self.index.count as usize,
    {
        self.index.count as usize
    }

    /// Heap held by the offsets and first parents.
    pub fn heap_bytes(&self) -> (n: u64)
        requires
            exists|len: nat| #[trigger] self.index.fits(len),
        ensures
            n == self.index.heap(),
    {
        self.index.heap_bytes()
    }

    /// Appends the first `limit` children recorded for `parent`. Decoding
    /// stops at the limit. A malformed block appends nothing: under-reporting
    /// a component is recoverable where crashing a query is not.
    pub fn children_of(&self, data: &[u8], parent: NodeId, limit: usize, out: &mut Vec<NodeId>)
        requires
            self.index.fits(data@.len()),
        ensures
            final(out)@ == old(out)@ + self.answer(data@, parent, limit as nat),
            final(out)@.len() <= old(out)@.len() + limit,
    {
        match self.index.find(data, parent, limit) {
            None => {
                assert(out@ =~= out@ + self.answer(data@, parent, limit as nat));
            },
            Some(values) => {
                let ghost before = out@;
                let mut i: usize = 0;
                assert(out@ =~= before + values@.take(0));
                while i < values.len()
                    invariant
                        i <= values.len(),
                        out@ == before + values@.take(i as int),
                    decreases values.len() - i,
                {
                    out.push(values[i]);
                    i += 1;
                    assert(out@ =~= before + values@.take(i as int));
                }
                assert(values@.take(i as int) =~= values@);
            },
        }
    }

    /// Every `(parent, child)` pair in order, up to the first malformed byte:
    /// the read compaction needs when it rewrites the index.
    pub fn for_each(&self, data: &[u8]) -> (pairs: Vec<(NodeId, NodeId)>)
        requires
            self.index.fits(data@.len()),
        ensures
            pairs@ == self.index.entries(data@),
    {
        let mut out: Vec<(NodeId, NodeId)> = Vec::new();
        let mut cursor = self.index.start();
        let ghost all = self.index.entries(data@);
        let ghost mut left = self.index.entries_from(data@, cursor);
        assert(out@ + left =~= all);
        loop
            invariant_except_break
                left == self.index.entries_from(data@, cursor),
                out@ + left == all,
            invariant
                self.index.fits(data@.len()),
                all == self.index.entries(data@),
            ensures
                out@ == all,
            decreases left.len(),
        {
            match self.index.next(data, &mut cursor) {
                None => {
                    assert(out@ =~= all);
                    break ;
                },
                Some(e) => {
                    let ghost was = out@;
                    out.push(e);
                    proof {
                        assert(was + left =~= out@ + left.drop_first());
                        left = left.drop_first();
                    }
                },
            }
        }
        out
    }
}

/// **A written member index answers what was written**: every parent finds
/// exactly its own children, in order and up to the limit, and a walk gives
/// the pairs back in order.
pub proof fn blocked_members_read_back(
    pairs: Seq<(NodeId, NodeId)>,
    target: nat,
    data: Seq<u8>,
    start: int,
)
    requires
        index_fits(pairs, target),
        holds_at(data, start, index_bytes(pairs, target)),
    ensures
        parse_error(data, start, start + index_bytes(pairs, target).len()) is None,
        forall|m: BlockedMembers|
            #![trigger m.index.describes(data, start)]
            m.index.describes(data, start) && m.index.fits(data.len()) ==> {
                &&& m.index.entries(data) == pairs
                &&& m.index.count == pairs.len()
                &&& forall|parent: NodeId, limit: nat| #[trigger]
                    m.answer(data, parent, limit) == at_most(values_with(pairs, parent), limit)
            },
{
    index_reads_back(pairs, target, data, start);
    assert forall|m: BlockedMembers|
        #![trigger m.index.describes(data, start)]
        m.index.describes(data, start) && m.index.fits(data.len()) implies {
        &&& m.index.entries(data) == pairs
        &&& m.index.count == pairs.len()
        &&& forall|parent: NodeId, limit: nat| #[trigger]
            m.answer(data, parent, limit) == at_most(values_with(pairs, parent), limit)
    } by {
        assert forall|parent: NodeId, limit: nat| #[trigger]
            m.answer(data, parent, limit) == at_most(values_with(pairs, parent), limit) by {
            assert(m.index.found(data, parent, limit) == Some(
                at_most(values_with(pairs, parent), limit),
            ));
        }
    }
}

/// **The two forms of a member index are told apart by type and by name**, and so
/// are the tiers.
pub proof fn member_forms_are_told_apart(a: MemberEncoding, b: MemberEncoding, t: Tier, u: Tier)
    ensures
        members_type(a, t) == members_type(b, u) <==> a == b && t == u,
        is_shared_members(members_type(a, t)) <==> t == Tier::Shared,
        is_overlay_members(members_type(a, t)) <==> t == Tier::Overlay,
        encoding_named("flat"@) == Some(MemberEncoding::Flat),
        encoding_named("v1"@) == Some(MemberEncoding::Flat),
        encoding_named("blocked"@) == Some(MemberEncoding::Blocked),
        encoding_named("varint"@) == Some(MemberEncoding::Blocked),
        encoding_named("v2"@) == Some(MemberEncoding::Blocked),
        forall|s: Seq<char>| #[trigger]
            encoding_named(s) is Some <==> s == "flat"@ || s == "v1"@ || s == "blocked"@ || s
                == "varint"@ || s == "v2"@,
{
    reveal_strlit("flat");
    reveal_strlit("v1");
    reveal_strlit("blocked");
    reveal_strlit("varint");
    reveal_strlit("v2");
    assert("flat"@.len() == 4 && "v1"@.len() == 2 && "blocked"@.len() == 7 && "varint"@.len() == 6
        && "v2"@.len() == 2);
    assert("v1"@[1] == '1' && "v2"@[1] == '2');
    reveal_strlit("blaze-shared-members-v1");
    reveal_strlit("blaze-shared-members-v2");
    reveal_strlit("blaze-overlay-members-v1");
    reveal_strlit("blaze-overlay-members-v2");
    let x = SHARED_FLAT_BLOB_TYPE@;
    let y = SHARED_BLOCKED_BLOB_TYPE@;
    let v = OVERLAY_FLAT_BLOB_TYPE@;
    let w = OVERLAY_BLOCKED_BLOB_TYPE@;
    assert(x[6] == 's' && y[6] == 's' && v[6] == 'o' && w[6] == 'o');
    assert(x[x.len() - 1] == '1' && y[y.len() - 1] == '2' && v[v.len() - 1] == '1' && w[w.len() - 1]
        == '2');
}

} // verus!
