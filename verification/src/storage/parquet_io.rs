//! Parquet encoding of sealed segments.

use arrow_schema::Schema;
use parquet::arrow::ArrowWriter;
use parquet::basic::{Compression, ZstdLevel};
use parquet::errors::ParquetError;
use parquet::file::properties::WriterProperties;
use std::sync::Arc;
use vstd::prelude::*;

use crate::ingest::batch::{
    arrow_schema_of, batch_of, batch_values, columns_of, edge_schema, edge_table, schema_columns,
    text_fits, ColumnView, EdgeBatch, EdgeColumnsView,
};
use crate::ingest::buffer::{row_total, row_views, segment_views, total_rows, Segment, SegmentView};

verus! {

/// Why segments were not encoded.
#[derive(Debug, Clone, Copy, PartialEq, Eq, Structural)]
pub enum EncodeError {
    /// The properties of one segment do not fit a column of text.
    TooMuchText,
    /// The Parquet writer refused.
    Refused,
}

/// `parquet`'s error.
#[verifier::external_type_specification]
#[verifier::external_body]
pub struct ExParquetError(parquet::errors::ParquetError);

/// An `ArrowWriter` that writes to memory.
#[verifier::external_body]
pub struct ParquetSink {
    writer: ArrowWriter<Vec<u8>>,
}

/// The file that `parquet` makes of a table with these columns when each of
/// these batches is written and flushed in turn, compressed with zstd at its
/// default level: `None` where a step on the way is refused.
pub uninterp spec fn parquet_file(
    columns: Seq<ColumnView>,
    batches: Seq<EdgeColumnsView>,
) -> Option<Seq<u8>>;

/// The columns of the table that a sink writes.
pub uninterp spec fn sink_columns(s: ParquetSink) -> Seq<ColumnView>;

/// The batches written to a sink and flushed, in order.
pub uninterp spec fn sink_batches(s: ParquetSink) -> Seq<EdgeColumnsView>;

/// `ArrowWriter::try_new` over a `Vec`, with zstd compression: a writer that
/// has written nothing. Where it is refused, there is no file of such a table.
#[verifier::external_body]
fn sink_open(schema: Arc<Schema>) -> (r: Result<ParquetSink, ParquetError>)
    ensures
        match r {
            Ok(s) => sink_columns(s) == schema_columns(*schema) && sink_batches(s) == Seq::<
                EdgeColumnsView,
            >::empty(),
            Err(_) => forall|batches: Seq<EdgeColumnsView>| #[trigger]
                parquet_file(schema_columns(*schema), batches) is None,
        },
{
    let props = WriterProperties::builder()
        .set_compression(Compression::ZSTD(ZstdLevel::default()))
        .build();
    Ok(ParquetSink { writer: ArrowWriter::try_new(Vec::new(), schema, Some(props))? })
}

/// `ArrowWriter::write` and then `ArrowWriter::flush`: one more batch, which
/// ends the row group in progress. Where either is refused, there is no file
/// that starts with these batches.
#[verifier::external_body]
fn sink_write(s: &mut ParquetSink, b: &EdgeBatch) -> (r: Result<(), ParquetError>)
    ensures
        sink_columns(*final(s)) == sink_columns(*old(s)),
        match r {
            Ok(_) => sink_batches(*final(s)) == sink_batches(*old(s)).push(batch_values(*b)),
            Err(_) => forall|more: Seq<EdgeColumnsView>| #[trigger]
                parquet_file(
                    sink_columns(*old(s)),
                    sink_batches(*old(s)).push(batch_values(*b)) + more,
                ) is None,
        },
{
    s.writer.write(&b.batch)?;
    s.writer.flush()
}

/// `ArrowWriter::into_inner`: the footer is written, and the file is complete.
#[verifier::external_body]
fn sink_finish(s: ParquetSink) -> (r: Result<Vec<u8>, ParquetError>)
    ensures
        parquet_file(sink_columns(s), sink_batches(s)) == match r {
            Ok(bytes) => Some(bytes@),
            Err(_) => None,
        },
{
    s.writer.into_inner()
}

/// The batches that `segments` are written as: one each.
pub open spec fn batches_of(segments: Seq<SegmentView>) -> Seq<EdgeColumnsView> {
    segments.map_values(|s: SegmentView| columns_of(s.rows))
}

/// The properties of every segment fit a column of text.
pub open spec fn every_text_fits(segments: Seq<SegmentView>) -> bool {
    forall|i: int| 0 <= i < segments.len() ==> text_fits((#[trigger] segments[i]).rows)
}

/// The segments as batches; `None` where the properties of one do not fit.
fn to_batches(segments: &Vec<Segment>) -> (r: Option<Vec<EdgeBatch>>)
    ensures
        r is Some <==> every_text_fits(segment_views(segments@)),
        r matches Some(v) ==> v@.len() == segments@.len() && forall|i: int|
            0 <= i < v@.len() ==> batch_values(#[trigger] v@[i]) == batches_of(
                segment_views(segments@),
            )[i],
{
    let ghost all = segment_views(segments@);
    let mut out: Vec<EdgeBatch> = Vec::new();
    let mut i: usize = 0;
    while i < segments.len()
        invariant
            i <= segments@.len(),
            all == segment_views(segments@),
            out@.len() == i,
            forall|j: int| 0 <= j < i ==> text_fits((#[trigger] all[j]).rows),
            forall|j: int| 0 <= j < i ==> batch_values(#[trigger] out@[j]) == batches_of(all)[j],
        decreases segments.len() - i,
    {
        assert(all[i as int].rows == row_views(segments@[i as int].rows@));
        match batch_of(&segments[i].rows) {
            Some(b) => out.push(b),
            None => {
                assert(!text_fits(all[i as int].rows));
                return None;
            },
        }
        i += 1;
    }
    Some(out)
}

/// Encodes sealed segments into a single Parquet file, with a row group
/// boundary after each, so that offset ranges stay aligned with row groups.
/// Rows are already clustered by scope. Returns the file and its row count.
pub fn segments_to_parquet(segments: &Vec<Segment>) -> (r: Result<(Vec<u8>, u64), EncodeError>)
    ensures
        match r {
            Ok((bytes, rows)) => {
                &&& every_text_fits(segment_views(segments@))
                &&& parquet_file(edge_table(), batches_of(segment_views(segments@))) == Some(bytes@)
                &&& rows == row_total(segment_views(segments@))
            },
            Err(EncodeError::TooMuchText) => !every_text_fits(segment_views(segments@)),
            Err(EncodeError::Refused) => every_text_fits(segment_views(segments@)) && parquet_file(
                edge_table(),
                batches_of(segment_views(segments@)),
            ) is None,
        },
{
    let ghost all = batches_of(segment_views(segments@));
    let batches = match to_batches(segments) {
        Some(b) => b,
        None => {
            return Err(EncodeError::TooMuchText);
        },
    };
    let mut sink = match sink_open(arrow_schema_of(&edge_schema())) {
        Ok(s) => s,
        Err(_) => {
            return Err(EncodeError::Refused);
        },
    };
    let mut i: usize = 0;
    assert(all.take(0) =~= Seq::empty());
    while i < batches.len()
        invariant
            i <= batches@.len(),
            batches@.len() == all.len(),
            all == batches_of(segment_views(segments@)),
            every_text_fits(segment_views(segments@)),
            forall|j: int| 0 <= j < batches@.len() ==> batch_values(#[trigger] batches@[j]) == all[j],
            sink_columns(sink) == edge_table(),
            sink_batches(sink) == all.take(i as int),
        decreases batches.len() - i,
    {
        assert(all.take(i as int).push(all[i as int]) =~= all.take(i + 1));
        match sink_write(&mut sink, &batches[i]) {
            Ok(()) => {},
            Err(_) => {
                assert(all.take(i + 1) + all.skip(i + 1) =~= all);
                return Err(EncodeError::Refused);
            },
        }
        i += 1;
    }
    assert(all.take(i as int) =~= all);
    match sink_finish(sink) {
        Ok(bytes) => Ok((bytes, total_rows(segments) as u64)),
        Err(_) => Err(EncodeError::Refused),
    }
}

} // verus!
