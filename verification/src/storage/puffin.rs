//! A minimal implementation of the Iceberg **Puffin** file format
//! (<https://iceberg.apache.org/puffin-spec/>), used as the sidecar that
//! carries the serialized DSU routing maps next to the Parquet data files.
//!
//! Layout:
//!
//! ```text
//! Magic (PFA1) | blob 0 | blob 1 | ... | Magic | footer payload (JSON)
//!            | payload size (u32 LE) | flags (u32 LE) | Magic
//! ```
//!
//! Blobs are opaque byte ranges; the footer's JSON records each blob's type,
//! offset, length and string properties. This module places blobs, frames a
//! file and checks one; turning metadata into JSON and back is the caller's.

use std::ops::Range;
use vstd::prelude::*;
use vstd::slice::slice_subrange;

use super::blocks::{holds_at, holds_parts};
use super::payload::{freeze, payload_content, slice_of};
use super::wire::{get_u32_le, le32, le_len, put_slice, put_u32_le, u32_at, u32_reads_back};

verus! {

/// The four bytes "PFA1".
pub open spec fn magic() -> Seq<u8> {
    seq![80u8, 70, 65, 49]
}

/// The four bytes "PFA1".
pub const MAGIC: [u8; 4] = [80u8, 70, 65, 49];

/// Where a magic was expected and not found.
#[derive(Debug, Clone, Copy, PartialEq, Eq, Structural)]
pub enum MagicPlace {
    FileStart,
    FileEnd,
    FooterStart,
}

#[derive(Debug, Clone, Copy, PartialEq, Eq, Structural)]
pub enum PuffinError {
    /// The file is too small to be a Puffin file.
    TooSmall,
    /// No magic where one belongs.
    BadMagic(MagicPlace),
    /// A blob's range is out of bounds.
    BlobOutOfBounds { offset: u64, length: u64, file_len: usize },
    /// Footer flags other than zero: compressed footers are not supported.
    UnsupportedFlags(u32),
}

/// One blob to be written into (or read from) a Puffin file.
#[derive(Debug)]
pub struct Blob {
    pub blob_type: String,
    pub data: bytes::Bytes,
    /// Names and values; no name occurs twice.
    pub properties: Vec<(String, String)>,
    pub snapshot_id: i64,
    pub sequence_number: i64,
}

/// What a [`Blob`] holds.
#[verifier::ext_equal]
pub ghost struct BlobView {
    pub blob_type: Seq<char>,
    pub data: Seq<u8>,
    pub properties: Seq<(Seq<char>, Seq<char>)>,
    pub snapshot_id: i64,
    pub sequence_number: i64,
}

pub open spec fn properties_view(p: Seq<(String, String)>) -> Seq<(Seq<char>, Seq<char>)> {
    p.map_values(|e: (String, String)| (e.0@, e.1@))
}

impl View for Blob {
    type V = BlobView;

    open spec fn view(&self) -> BlobView {
        BlobView {
            blob_type: self.blob_type@,
            data: payload_content(self.data),
            properties: properties_view(self.properties@),
            snapshot_id: self.snapshot_id,
            sequence_number: self.sequence_number,
        }
    }
}

pub open spec fn blob_views(blobs: Seq<Blob>) -> Seq<BlobView> {
    blobs.map_values(|b: Blob| b@)
}

/// What the footer records of a blob.
#[derive(Debug)]
pub struct BlobMetadata {
    pub blob_type: String,
    pub fields: Vec<i32>,
    pub snapshot_id: i64,
    pub sequence_number: i64,
    pub offset: u64,
    pub length: u64,
    pub compression_codec: Option<String>,
    pub properties: Vec<(String, String)>,
}

/// What a [`BlobMetadata`] says.
#[verifier::ext_equal]
pub ghost struct MetaView {
    pub blob_type: Seq<char>,
    pub fields: Seq<i32>,
    pub snapshot_id: i64,
    pub sequence_number: i64,
    pub offset: u64,
    pub length: u64,
    /// The codec's name, where the blob is compressed.
    pub codec: Option<Seq<char>>,
    pub properties: Seq<(Seq<char>, Seq<char>)>,
}

impl View for BlobMetadata {
    type V = MetaView;

    open spec fn view(&self) -> MetaView {
        MetaView {
            blob_type: self.blob_type@,
            fields: self.fields@,
            snapshot_id: self.snapshot_id,
            sequence_number: self.sequence_number,
            offset: self.offset,
            length: self.length,
            codec: match self.compression_codec {
                Some(name) => Some(name@),
                None => None,
            },
            properties: properties_view(self.properties@),
        }
    }
}

impl BlobMetadata {
    /// The blob lies inside a file of `len` bytes.
    pub open spec fn inside(&self, len: nat) -> bool {
        self.offset + self.length <= len
    }

    /// The blob's place in the file.
    pub fn range(&self) -> (r: Range<usize>)
        requires
            self.inside(usize::MAX as nat),
        ensures
            r.start == self.offset,
            r.end == self.offset + self.length,
    {
        self.offset as usize..(self.offset + self.length) as usize
    }
}

pub open spec fn meta_views(metas: Seq<BlobMetadata>) -> Seq<MetaView> {
    metas.map_values(|m: BlobMetadata| m@)
}

// --- the layout ------------------------------------------------------------------------

/// The blobs' data, one after the other.
pub open spec fn data_bytes(blobs: Seq<BlobView>) -> Seq<u8>
    decreases blobs.len(),
{
    if blobs.len() == 0 {
        Seq::empty()
    } else {
        data_bytes(blobs.drop_last()) + blobs.last().data
    }
}

/// What the footer says of blob `i`.
pub open spec fn placed(blobs: Seq<BlobView>, i: int) -> MetaView {
    let b = blobs[i];
    MetaView {
        blob_type: b.blob_type,
        fields: Seq::empty(),
        snapshot_id: b.snapshot_id,
        sequence_number: b.sequence_number,
        offset: (4 + data_bytes(blobs.take(i)).len()) as u64,
        length: b.data.len() as u64,
        codec: None,
        properties: b.properties,
    }
}

/// A whole file.
pub open spec fn file_bytes(blobs: Seq<BlobView>, footer: Seq<u8>) -> Seq<u8> {
    magic() + data_bytes(blobs) + (magic() + footer + (le32(footer.len() as u32) + le32(0)
        + magic()))
}

/// Where the footer of a file is, or what is wrong with it.
pub open spec fn footer_at(data: Seq<u8>) -> Result<(int, int), PuffinError> {
    let n = data.len() as int;
    if n < 20 {
        Err(PuffinError::TooSmall)
    } else if data.subrange(0, 4) != magic() {
        Err(PuffinError::BadMagic(MagicPlace::FileStart))
    } else if data.subrange(n - 4, n) != magic() {
        Err(PuffinError::BadMagic(MagicPlace::FileEnd))
    } else if u32_at(data, n - 8) != 0 {
        Err(PuffinError::UnsupportedFlags(u32_at(data, n - 8)))
    } else {
        let start = n - 12 - u32_at(data, n - 12);
        if start < 4 {
            Err(PuffinError::TooSmall)
        } else if data.subrange(start - 4, start) != magic() {
            Err(PuffinError::BadMagic(MagicPlace::FooterStart))
        } else {
            Ok((start, n - 12))
        }
    }
}

/// The blob that `m` describes.
pub open spec fn blob_at(data: Seq<u8>, m: MetaView) -> BlobView {
    BlobView {
        blob_type: m.blob_type,
        data: data.subrange(m.offset as int, m.offset + m.length),
        properties: m.properties,
        snapshot_id: m.snapshot_id,
        sequence_number: m.sequence_number,
    }
}

pub open spec fn out_of_bounds(m: MetaView, len: nat) -> bool {
    m.offset + m.length > len
}

pub open spec fn bounds_error(m: MetaView, len: nat) -> PuffinError {
    PuffinError::BlobOutOfBounds { offset: m.offset, length: m.length, file_len: len as usize }
}

/// What is wrong with the first blob that does not lie inside a file of `len`
/// bytes.
pub open spec fn range_error(metas: Seq<MetaView>, len: nat) -> Option<PuffinError>
    decreases metas.len(),
{
    if metas.len() == 0 {
        None
    } else {
        match range_error(metas.drop_last(), len) {
            Some(e) => Some(e),
            None => if out_of_bounds(metas.last(), len) {
                Some(bounds_error(metas.last(), len))
            } else {
                None
            },
        }
    }
}

// --- exec ---------------------------------------------------------------------------------

pub fn clone_properties(p: &Vec<(String, String)>) -> (q: Vec<(String, String)>)
    ensures
        properties_view(q@) == properties_view(p@),
{
    let mut q: Vec<(String, String)> = Vec::new();
    let mut i: usize = 0;
    assert(properties_view(q@) =~= properties_view(p@.take(0)));
    while i < p.len()
        invariant
            i <= p.len(),
            properties_view(q@) == properties_view(p@.take(i as int)),
        decreases p.len() - i,
    {
        let ghost was = q@;
        q.push((p[i].0.clone(), p[i].1.clone()));
        proof {
            assert(p@.take(i + 1) =~= p@.take(i as int).push(p@[i as int]));
            assert(properties_view(q@) =~= properties_view(was).push(
                (p@[i as int].0@, p@[i as int].1@),
            ));
            assert(properties_view(p@.take(i + 1)) =~= properties_view(p@.take(i as int)).push(
                (p@[i as int].0@, p@[i as int].1@),
            ));
        }
        i += 1;
    }
    assert(p@.take(i as int) =~= p@);
    q
}

/// The value of the property `name`.
pub open spec fn property(p: Seq<(Seq<char>, Seq<char>)>, name: Seq<char>) -> Option<Seq<char>>
    decreases p.len(),
{
    if p.len() == 0 {
        None
    } else if p[0].0 == name {
        Some(p[0].1)
    } else {
        property(p.skip(1), name)
    }
}

pub fn find_property<'a>(p: &'a Vec<(String, String)>, name: &str) -> (r: Option<&'a String>)
    ensures
        match r {
            Some(v) => property(properties_view(p@), name@) == Some(v@),
            None => property(properties_view(p@), name@) is None,
        },
{
    let ghost all = properties_view(p@);
    let mut i: usize = 0;
    assert(all.skip(0) =~= all);
    while i < p.len()
        invariant
            i <= p.len(),
            all == properties_view(p@),
            property(all, name@) == property(all.skip(i as int), name@),
        decreases p.len() - i,
    {
        assert(all.skip(i as int)[0] == (p@[i as int].0@, p@[i as int].1@));
        if crate::text::same_text(p[i].0.as_str(), name) {
            return Some(&p[i].1);
        }
        assert(all.skip(i as int).skip(1) =~= all.skip(i + 1));
        i += 1;
    }
    None
}

proof fn data_bytes_front(blobs: Seq<BlobView>, i: int)
    requires
        0 <= i < blobs.len(),
    ensures
        data_bytes(blobs.take(i + 1)) == data_bytes(blobs.take(i)) + blobs[i].data,
{
    assert(blobs.take(i + 1).drop_last() =~= blobs.take(i));
}

/// Where each blob goes in a file of `blobs`, in order.
pub fn place(blobs: &[Blob]) -> (metas: Vec<BlobMetadata>)
    requires
        4 + data_bytes(blob_views(blobs@)).len() <= u64::MAX,
    ensures
        metas@.len() == blobs@.len(),
        forall|i: int|
            0 <= i < metas@.len() ==> (#[trigger] metas@[i])@ == placed(blob_views(blobs@), i),
{
    let ghost all = blob_views(blobs@);
    let mut metas: Vec<BlobMetadata> = Vec::new();
    let mut offset: u64 = 4;
    let mut i: usize = 0;
    assert(all.take(0) =~= Seq::empty());
    while i < blobs.len()
        invariant
            i <= blobs.len(),
            all == blob_views(blobs@),
            4 + data_bytes(all).len() <= u64::MAX,
            offset == 4 + data_bytes(all.take(i as int)).len(),
            metas@.len() == i,
            forall|j: int| 0 <= j < i ==> (#[trigger] metas@[j])@ == placed(all, j),
        decreases blobs.len() - i,
    {
        let blob = &blobs[i];
        proof {
            data_bytes_front(all, i as int);
            prefix_is_shorter(all, i + 1);
        }
        let length: u64 = slice_of(&blob.data).len() as u64;
        let meta = BlobMetadata {
            blob_type: blob.blob_type.clone(),
            fields: Vec::new(),
            snapshot_id: blob.snapshot_id,
            sequence_number: blob.sequence_number,
            offset,
            length,
            compression_codec: None,
            properties: clone_properties(&blob.properties),
        };
        assert(meta@ =~= placed(all, i as int));
        metas.push(meta);
        offset = offset + length;
        i += 1;
    }
    metas
}

proof fn prefix_is_shorter(blobs: Seq<BlobView>, i: int)
    requires
        0 <= i <= blobs.len(),
    ensures
        data_bytes(blobs.take(i)).len() <= data_bytes(blobs).len(),
    decreases blobs.len(),
{
    if i == blobs.len() {
        assert(blobs.take(i) =~= blobs);
    } else {
        prefix_is_shorter(blobs.drop_last(), i);
        assert(blobs.drop_last().take(i) =~= blobs.take(i));
    }
}

/// A complete Puffin file of `blobs`. `footer` is the JSON of their metadata,
/// as [`place`] gives it.
pub fn write(blobs: &[Blob], footer: &[u8]) -> (file: bytes::Bytes)
    ensures
        payload_content(file) == file_bytes(blob_views(blobs@), footer@),
{
    let ghost all = blob_views(blobs@);
    let mut out: Vec<u8> = Vec::new();
    put_magic(&mut out);
    let mut i: usize = 0;
    assert(all.take(0) =~= Seq::empty());
    assert(out@ =~= magic() + data_bytes(all.take(0)));
    while i < blobs.len()
        invariant
            i <= blobs.len(),
            all == blob_views(blobs@),
            out@ == magic() + data_bytes(all.take(i as int)),
        decreases blobs.len() - i,
    {
        proof {
            data_bytes_front(all, i as int);
        }
        put_slice(&mut out, slice_of(&blobs[i].data));
        i += 1;
        assert(out@ =~= magic() + data_bytes(all.take(i as int)));
    }
    assert(all.take(i as int) =~= all);
    put_magic(&mut out);
    put_slice(&mut out, footer);
    put_u32_le(&mut out, footer.len() as u32);
    put_u32_le(&mut out, 0);
    put_magic(&mut out);
    assert(out@ =~= file_bytes(all, footer@));
    freeze(out)
}

fn put_magic(out: &mut Vec<u8>)
    ensures
        final(out)@ == old(out)@ + magic(),
{
    let ghost before = out@;
    out.push(80u8);
    out.push(70u8);
    out.push(65u8);
    out.push(49u8);
    assert(out@ =~= before + magic());
}

fn is_magic(data: &[u8], at: usize) -> (r: bool)
    requires
        at + 4 <= data@.len(),
    ensures
        r == (data@.subrange(at as int, at + 4) == magic()),
{
    let len: usize = data.len();
    let r: bool = data[at] == 80 && data[at + 1] == 70 && data[at + 2] == 65 && data[at + 3] == 49;
    proof {
        let s = data@.subrange(at as int, at + 4);
        assert(s.len() == 4 && magic().len() == 4);
        if r {
            assert(s =~= magic());
        } else {
            assert(s[0] == data@[at as int] && s[1] == data@[at + 1] && s[2] == data@[at + 2]
                && s[3] == data@[at + 3]);
            assert(magic()[0] == 80 && magic()[1] == 70 && magic()[2] == 65 && magic()[3] == 49);
        }
    }
    r
}

/// Where the footer's JSON is.
pub fn footer_range(data: &[u8]) -> (r: Result<Range<usize>, PuffinError>)
    ensures
        match r {
            Ok(range) => footer_at(data@) == Ok::<(int, int), PuffinError>(
                (range.start as int, range.end as int),
            ),
            Err(e) => footer_at(data@) == Err::<(int, int), PuffinError>(e),
        },
{
    let n: usize = data.len();
    if n < 20 {
        return Err(PuffinError::TooSmall);
    }
    if !is_magic(data, 0) {
        return Err(PuffinError::BadMagic(MagicPlace::FileStart));
    }
    if !is_magic(data, n - 4) {
        return Err(PuffinError::BadMagic(MagicPlace::FileEnd));
    }
    let flags: u32 = get_u32_le(data, n - 8);
    if flags != 0 {
        return Err(PuffinError::UnsupportedFlags(flags));
    }
    let payload_len: usize = get_u32_le(data, n - 12) as usize;
    if payload_len > n - 12 || n - 12 - payload_len < 4 {
        return Err(PuffinError::TooSmall);
    }
    let start: usize = n - 12 - payload_len;
    if !is_magic(data, start - 4) {
        return Err(PuffinError::BadMagic(MagicPlace::FooterStart));
    }
    Ok(start..n - 12)
}

/// Whether every blob lies inside a file of `len` bytes.
pub fn check_ranges(metas: &[BlobMetadata], len: usize) -> (r: Result<(), PuffinError>)
    ensures
        match r {
            Ok(()) => range_error(meta_views(metas@), len as nat) is None,
            Err(e) => range_error(meta_views(metas@), len as nat) == Some(e),
        },
        r is Ok ==> forall|i: int|
            0 <= i < metas@.len() ==> (#[trigger] metas@[i]).inside(len as nat),
{
    let ghost all = meta_views(metas@);
    let mut i: usize = 0;
    assert(all.take(0) =~= Seq::empty());
    while i < metas.len()
        invariant
            i <= metas.len(),
            all == meta_views(metas@),
            range_error(all.take(i as int), len as nat) is None,
            forall|j: int| 0 <= j < i ==> (#[trigger] metas@[j]).inside(len as nat),
        decreases metas.len() - i,
    {
        let offset: u64 = metas[i].offset;
        let length: u64 = metas[i].length;
        assert(all.take(i + 1).drop_last() =~= all.take(i as int));
        assert(all.take(i + 1).last() == metas@[i as int]@);
        if offset as u128 + length as u128 > len as u128 {
            proof {
                range_error_stays(all, i + 1, len as nat);
            }
            return Err(PuffinError::BlobOutOfBounds { offset, length, file_len: len });
        }
        i += 1;
    }
    assert(all.take(i as int) =~= all);
    Ok(())
}

proof fn range_error_stays(metas: Seq<MetaView>, i: int, len: nat)
    requires
        0 <= i <= metas.len(),
        range_error(metas.take(i), len) is Some,
    ensures
        range_error(metas, len) == range_error(metas.take(i), len),
    decreases metas.len(),
{
    if i == metas.len() {
        assert(metas.take(i) =~= metas);
    } else {
        assert(metas.drop_last().take(i) =~= metas.take(i));
        range_error_stays(metas.drop_last(), i, len);
    }
}

/// The blobs of a file. `metas` is what its footer says of them.
pub fn read(data: &[u8], metas: Vec<BlobMetadata>) -> (r: Result<Vec<Blob>, PuffinError>)
    ensures
        match r {
            Ok(blobs) => {
                &&& range_error(meta_views(metas@), data@.len()) is None
                &&& blobs@.len() == metas@.len()
                &&& forall|i: int|
                    0 <= i < blobs@.len() ==> (#[trigger] blobs@[i])@ == blob_at(
                        data@,
                        metas@[i]@,
                    )
            },
            Err(e) => range_error(meta_views(metas@), data@.len()) == Some(e),
        },
{
    match check_ranges(metas.as_slice(), data.len()) {
        Err(e) => {
            return Err(e);
        },
        Ok(()) => {},
    }
    let len: usize = data.len();
    let mut blobs: Vec<Blob> = Vec::new();
    let mut i: usize = 0;
    while i < metas.len()
        invariant
            i <= metas.len(),
            len == data@.len(),
            forall|j: int| 0 <= j < metas@.len() ==> (#[trigger] metas@[j]).inside(len as nat),
            blobs@.len() == i,
            forall|j: int| 0 <= j < i ==> (#[trigger] blobs@[j])@ == blob_at(data@, metas@[j]@),
        decreases metas.len() - i,
    {
        let meta = &metas[i];
        assert(metas@[i as int].inside(len as nat));
        let range = meta.range();
        let part = slice_subrange(data, range.start, range.end);
        let mut copy: Vec<u8> = Vec::new();
        put_slice(&mut copy, part);
        assert(copy@ =~= data@.subrange(range.start as int, range.end as int));
        let blob = Blob {
            blob_type: meta.blob_type.clone(),
            data: freeze(copy),
            properties: clone_properties(&meta.properties),
            snapshot_id: meta.snapshot_id,
            sequence_number: meta.sequence_number,
        };
        assert(blob@ =~= blob_at(data@, metas@[i as int]@));
        blobs.push(blob);
        i += 1;
    }
    Ok(blobs)
}

// --- laws ---------------------------------------------------------------------------------

proof fn data_is_there(data: Seq<u8>, at: int, blobs: Seq<BlobView>, i: int)
    requires
        holds_at(data, at, data_bytes(blobs)),
        0 <= i < blobs.len(),
    ensures
        holds_at(data, at + data_bytes(blobs.take(i)).len(), blobs[i].data),
    decreases blobs.len(),
{
    let front = blobs.drop_last();
    holds_parts(data, at, data_bytes(front), blobs.last().data);
    if i == blobs.len() - 1 {
        assert(blobs.take(i) =~= front);
    } else {
        data_is_there(data, at, front, i);
        assert(front.take(i) =~= blobs.take(i));
    }
}

/// **A written file reads back**: its footer is found where it is, and the
/// blobs that [`place`] describes are all inside and hold what was written.
pub proof fn file_reads_back(blobs: Seq<BlobView>, footer: Seq<u8>)
    requires
        footer.len() <= u32::MAX,
        4 + data_bytes(blobs).len() <= u64::MAX,
    ensures
        ({
            let file = file_bytes(blobs, footer);
            &&& footer_at(file) matches Ok(range) && file.subrange(range.0, range.1) == footer
            &&& forall|i: int|
                0 <= i < blobs.len() ==> !out_of_bounds(#[trigger] placed(blobs, i), file.len())
                    && blob_at(file, placed(blobs, i)) == blobs[i]
        }),
{
    let file = file_bytes(blobs, footer);
    let n = file.len() as int;
    let size = le32(footer.len() as u32);
    le_len(footer.len() as u32 as nat, 4);
    le_len(0, 4);
    assert(file.subrange(0, n) =~= file);
    let end = magic() + footer + (size + le32(0) + magic());
    holds_parts(file, 0, magic() + data_bytes(blobs), end);
    holds_parts(file, 0, magic(), data_bytes(blobs));
    let at: int = 4 + data_bytes(blobs).len() as int;
    holds_parts(file, at, magic() + footer, size + le32(0) + magic());
    holds_parts(file, at, magic(), footer);
    let tail: int = at + 4 + footer.len();
    holds_parts(file, tail, size + le32(0), magic());
    holds_parts(file, tail, size, le32(0));
    u32_reads_back(file, n - 12, footer.len() as u32);
    u32_reads_back(file, n - 8, 0);
    assert forall|i: int| 0 <= i < blobs.len() implies !out_of_bounds(
        #[trigger] placed(blobs, i),
        file.len(),
    ) && blob_at(file, placed(blobs, i)) == blobs[i] by {
        prefix_is_shorter(blobs, i + 1);
        data_bytes_front(blobs, i);
        data_is_there(file, 4, blobs, i);
        assert(blob_at(file, placed(blobs, i)) =~= blobs[i]);
    }
}

/// **A file is framed as the format says**: the magic, the blobs one after the
/// other, the magic, the footer, its size, no flags, and the magic.
pub proof fn a_file_is_framed(blobs: Seq<BlobView>, footer: Seq<u8>, i: int)
    requires
        footer.len() <= u32::MAX,
        4 + data_bytes(blobs).len() <= u64::MAX,
        0 <= i < blobs.len(),
    ensures
        ({
            let file = file_bytes(blobs, footer);
            let n = file.len() as int;
            let at = placed(blobs, i).offset as int;
            &&& n == 4 + data_bytes(blobs).len() + 4 + footer.len() + 12
            &&& file[0] == 80 && file[1] == 70 && file[2] == 65 && file[3] == 49
            &&& file[n - 4] == 80 && file[n - 3] == 70 && file[n - 2] == 65 && file[n - 1] == 49
            &&& u32_at(file, n - 8) == 0
            &&& u32_at(file, n - 12) == footer.len()
            &&& file.subrange(n - 12 - footer.len(), n - 12) == footer
            &&& i == 0 ==> at == 4
            &&& placed(blobs, i).length == blobs[i].data.len()
            &&& file.subrange(at, at + blobs[i].data.len()) == blobs[i].data
            &&& i + 1 < blobs.len() ==> placed(blobs, i + 1).offset == at + blobs[i].data.len()
            &&& placed(blobs, i).blob_type == blobs[i].blob_type
            &&& placed(blobs, i).properties == blobs[i].properties
            &&& placed(blobs, i).snapshot_id == blobs[i].snapshot_id
            &&& placed(blobs, i).sequence_number == blobs[i].sequence_number
            &&& placed(blobs, i).codec is None
            &&& placed(blobs, i).fields.len() == 0
        }),
{
    file_reads_back(blobs, footer);
    let file = file_bytes(blobs, footer);
    let n = file.len() as int;
    le_len(footer.len() as u32 as nat, 4);
    le_len(0, 4);
    assert(blob_at(file, placed(blobs, i)) == blobs[i]);
    assert(!out_of_bounds(placed(blobs, i), file.len()));
    data_bytes_front(blobs, i);
    prefix_is_shorter(blobs, i + 1);
    assert(file.subrange(0, n) =~= file);
    assert(blobs.take(0) =~= Seq::empty());
    assert(n == 4 + data_bytes(blobs).len() + 4 + footer.len() + 12);
    let end = magic() + footer + (le32(footer.len() as u32) + le32(0) + magic());
    holds_parts(file, 0, magic() + data_bytes(blobs), end);
    let at: int = 4 + data_bytes(blobs).len() as int;
    holds_parts(
        file,
        at,
        magic() + footer,
        le32(footer.len() as u32) + le32(0) + magic(),
    );
    let tail: int = at + 4 + footer.len();
    holds_parts(file, tail, le32(footer.len() as u32) + le32(0), magic());
    holds_parts(file, tail, le32(footer.len() as u32), le32(0));
    u32_reads_back(file, n - 12, footer.len() as u32);
    u32_reads_back(file, n - 8, 0);
    let last = file.subrange(n - 4, n);
    assert(last =~= magic());
    assert(last[0] == file[n - 4] && last[1] == file[n - 3] && last[2] == file[n - 2] && last[3]
        == file[n - 1]);
}

/// **A footer is found only in a whole file**: with the magic at both ends and
/// before the footer, no flags, and a size that leaves room for them.
pub proof fn a_footer_is_found_only_in_a_whole_file(data: Seq<u8>, start: int, end: int)
    ensures
        footer_at(data) == Ok::<(int, int), PuffinError>((start, end)) <==> {
            let n = data.len() as int;
            &&& n >= 20
            &&& data.subrange(0, 4) == seq![80u8, 70, 65, 49]
            &&& data.subrange(n - 4, n) == seq![80u8, 70, 65, 49]
            &&& u32_at(data, n - 8) == 0
            &&& end == n - 12
            &&& end - start == u32_at(data, n - 12)
            &&& start >= 4
            &&& data.subrange(start - 4, start) == seq![80u8, 70, 65, 49]
        },
{
    let n = data.len() as int;
    if footer_at(data) is Ok && start == n - 12 - u32_at(data, n - 12) && end == n - 12 {
        assert(footer_at(data) == Ok::<(int, int), PuffinError>((start, end)));
    }
}

/// **The first blob outside its file is named**, and where none is, every blob
/// lies inside.
pub proof fn the_first_stray_blob_is_named(metas: Seq<MetaView>, len: nat, i: int)
    requires
        0 <= i < metas.len(),
        forall|j: int|
            0 <= j < i ==> (#[trigger] metas[j]).offset + metas[j].length <= len,
        len <= usize::MAX,
    ensures
        metas[i].offset + metas[i].length > len ==> range_error(metas, len) == Some(
            PuffinError::BlobOutOfBounds {
                offset: metas[i].offset,
                length: metas[i].length,
                file_len: len as usize,
            },
        ),
        i == metas.len() - 1 && metas[i].offset + metas[i].length <= len ==> range_error(metas, len)
            is None,
    decreases metas.len(),
{
    let front = metas.drop_last();
    let n = metas.len() - 1;
    if i < n {
        the_first_stray_blob_is_named(front, len, i);
    } else if n > 0 {
        assert(metas[n - 1].offset + metas[n - 1].length <= len);
        assert(front[n - 1] == metas[n - 1]);
        the_first_stray_blob_is_named(front, len, n - 1);
    } else {
        assert(range_error(front, len) is None);
    }
}

/// **A property is the first of its name**, and absent where no name matches.
pub proof fn a_property_is_the_first_of_its_name(
    p: Seq<(Seq<char>, Seq<char>)>,
    name: Seq<char>,
    value: Seq<char>,
)
    ensures
        property(seq![(name, value)] + p, name) == Some(value),
        forall|other: Seq<char>|
            other != name ==> #[trigger] property(seq![(name, value)] + p, other) == property(
                p,
                other,
            ),
        property(Seq::empty(), name) is None,
{
    let q = seq![(name, value)] + p;
    assert(q[0] == (name, value));
    assert(q.skip(1) =~= p);
}

/// **A blob says its own fields**, and so does what is recorded of it.
pub proof fn a_blob_says_its_fields(b: Blob, m: BlobMetadata)
    ensures
        b@.blob_type == b.blob_type@,
        b@.data == payload_content(b.data),
        b@.snapshot_id == b.snapshot_id,
        b@.sequence_number == b.sequence_number,
        b@.properties.len() == b.properties@.len(),
        m@.blob_type == m.blob_type@,
        m@.snapshot_id == m.snapshot_id,
        m@.sequence_number == m.sequence_number,
        m@.offset == m.offset,
        m@.length == m.length,
        m@.codec is Some <==> m.compression_codec is Some,
        forall|i: int|
            0 <= i < b.properties@.len() ==> #[trigger] b@.properties[i] == (
                b.properties@[i].0@,
                b.properties@[i].1@,
            ),
{
}

/// **A file that was written is read**: its footer is found, and the blobs that were
/// placed come back as they were.
pub proof fn a_written_file_is_read(
    blobs: &[Blob],
    footer: &[u8],
    file: bytes::Bytes,
    data: &[u8],
    metas: Vec<BlobMetadata>,
    range: Result<Range<usize>, PuffinError>,
    back: Result<Vec<Blob>, PuffinError>,
    i: int,
)
    requires
        footer@.len() <= u32::MAX,
        4 + data_bytes(blob_views(blobs@)).len() <= u64::MAX,
        call_ensures(write, (blobs, footer), file),
        data@ == payload_content(file),
        call_ensures(place, (blobs,), metas),
        call_ensures(footer_range, (data,), range),
        call_ensures(read, (data, metas), back),
        0 <= i < blobs@.len(),
    ensures
        range matches Ok(r) && data@.subrange(r.start as int, r.end as int) == footer@,
        back matches Ok(v) ==> v@.len() == blobs@.len() && v@[i]@ == blobs@[i]@,
{
    let all = blob_views(blobs@);
    file_reads_back(all, footer@);
    if let Ok(v) = back {
        assert(metas@[i]@ == placed(all, i));
        assert(v@[i]@ == blob_at(data@, metas@[i]@));
        assert(blob_at(data@, placed(all, i)) == all[i]);
    }
}

} // verus!
