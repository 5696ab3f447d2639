//! Sealed segments as Parquet files.

use arrow_array::{Array, RecordBatch, StringArray, TimestampMillisecondArray, UInt32Array, UInt64Array};
use arrow_schema::{DataType, Field, TimeUnit};
use blaze::graph::{EdgeEvent, ScopeList, Visibility};
use blaze::ingest::batch::{to_columns, ColumnKind};
use blaze::ingest::{edge_schema, EdgeBuffer, Segment};
use blaze::storage::flush::data_file;
use blaze::storage::parquet_io::segments_to_parquet;
use bytes::Bytes;
use parquet::arrow::arrow_reader::ParquetRecordBatchReaderBuilder;
use parquet::basic::Compression;

fn edge(src: u64, dst: u64, visibility: Visibility, props: Option<&str>) -> EdgeEvent {
    EdgeEvent {
        src,
        dst,
        visibility,
        event_time_ms: 1000 + src as i64,
        props: props.map(|p| p.to_string()),
    }
}

fn sealed(events: &[EdgeEvent]) -> Segment {
    let mut buf = EdgeBuffer::new();
    for (i, e) in events.iter().enumerate() {
        buf.append(3, i as u64, e);
    }
    buf.seal_active().unwrap()
}

fn u64s(batch: &RecordBatch, column: &str) -> Vec<u64> {
    let array = batch.column_by_name(column).unwrap();
    array.as_any().downcast_ref::<UInt64Array>().unwrap().values().to_vec()
}

fn u32s(batch: &RecordBatch, column: &str) -> Vec<u32> {
    let array = batch.column_by_name(column).unwrap();
    array.as_any().downcast_ref::<UInt32Array>().unwrap().values().to_vec()
}

#[test]
fn parquet_roundtrip() {
    let mut buf = EdgeBuffer::new();
    for i in 0..10u64 {
        buf.append(
            0,
            i,
            &EdgeEvent {
                src: i,
                dst: i + 1,
                visibility: Visibility::Global,
                event_time_ms: 1000 + i as i64,
                props: None,
            },
        );
    }
    let seg = buf.seal_active().unwrap();
    let (bytes, rows) = segments_to_parquet(&vec![seg]).unwrap();
    assert_eq!(rows, 10);

    let reader = ParquetRecordBatchReaderBuilder::try_new(Bytes::from(bytes))
        .unwrap()
        .build()
        .unwrap();
    let read_rows: usize = reader.map(|b| b.unwrap().num_rows()).sum();
    assert_eq!(read_rows, 10);
}

#[test]
fn every_column_is_read_back() {
    let both = Visibility::Scoped(ScopeList::from_vec(vec![5, 2]));
    let segments = vec![sealed(&[
        edge(90, 1, both, Some(r#"{"w":1}"#)),
        edge(70, 2, Visibility::Global, None),
    ])];
    let (bytes, rows) = segments_to_parquet(&segments).unwrap();
    assert_eq!(rows, 3);
    let mut reader = ParquetRecordBatchReaderBuilder::try_new(Bytes::from(bytes))
        .unwrap()
        .build()
        .unwrap();
    let batch = reader.next().unwrap().unwrap();
    assert!(reader.next().is_none());
    assert_eq!(u32s(&batch, "partition"), vec![3, 3, 3]);
    assert_eq!(u64s(&batch, "offset"), vec![1, 0, 0]);
    assert_eq!(u64s(&batch, "src"), vec![70, 90, 90]);
    assert_eq!(u64s(&batch, "dst"), vec![2, 1, 1]);
    assert_eq!(u32s(&batch, "scope_id"), vec![0, 2, 5]);
    let times = batch.column_by_name("event_time").unwrap();
    let times = times.as_any().downcast_ref::<TimestampMillisecondArray>().unwrap();
    assert_eq!(times.values().to_vec(), vec![1070, 1090, 1090]);
    let props = batch.column_by_name("props").unwrap();
    let props = props.as_any().downcast_ref::<StringArray>().unwrap();
    assert!(props.is_null(0));
    assert_eq!((props.value(1), props.value(2)), (r#"{"w":1}"#, r#"{"w":1}"#));
}

#[test]
fn each_segment_ends_a_row_group() {
    let segments = vec![
        sealed(&[edge(1, 2, Visibility::Global, None), edge(2, 3, Visibility::Global, None)]),
        sealed(&[edge(7, 8, Visibility::Global, None)]),
    ];
    let (bytes, rows) = segments_to_parquet(&segments).unwrap();
    let file = data_file("data/x".to_string(), bytes.len() as u64, &segments);
    assert_eq!((rows, file.rows), (3, 3));
    let builder = ParquetRecordBatchReaderBuilder::try_new(Bytes::from(bytes)).unwrap();
    let groups = builder.metadata().row_groups();
    assert_eq!(groups.iter().map(|g| g.num_rows()).collect::<Vec<i64>>(), vec![2, 1]);
    assert!(groups
        .iter()
        .flat_map(|g| g.columns())
        .all(|c| matches!(c.compression(), Compression::ZSTD(_))));
}

#[test]
fn no_segments_make_an_empty_file() {
    let (bytes, rows) = segments_to_parquet(&vec![]).unwrap();
    assert_eq!(rows, 0);
    let builder = ParquetRecordBatchReaderBuilder::try_new(Bytes::from(bytes)).unwrap();
    let fields = builder.schema().fields();
    let columns = edge_schema();
    assert_eq!(fields.len(), columns.len());
    for (field, column) in fields.iter().zip(columns.iter()) {
        let kind = match column.kind {
            ColumnKind::U32 => DataType::UInt32,
            ColumnKind::U64 => DataType::UInt64,
            ColumnKind::Millis => DataType::Timestamp(TimeUnit::Millisecond, None),
            ColumnKind::Text => DataType::Utf8,
        };
        assert_eq!(field.as_ref(), &Field::new(column.name, kind, column.nullable));
    }
    assert!(builder.build().unwrap().next().is_none());
}

#[test]
fn the_edge_table_has_seven_columns() {
    let columns = edge_schema();
    let names: Vec<&str> = columns.iter().map(|c| c.name).collect();
    assert_eq!(
        names,
        vec!["partition", "offset", "src", "dst", "scope_id", "event_time", "props"]
    );
    assert!(columns.iter().all(|c| c.nullable == (c.name == "props")));
    let seg = sealed(&[edge(1, 2, Visibility::Global, Some("p"))]);
    let c = to_columns(&seg.rows);
    assert_eq!((c.src, c.dst, c.props), (vec![1], vec![2], vec![Some("p".to_string())]));
}
