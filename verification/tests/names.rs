//! Names, numbers and settings in text form.

use blaze::config::{
    check_stream, election_mode, event_source, routing_mode, s3_bucket, s3_table_prefix,
    stream_refusal, warehouse_of, ConfigError, Election, EventSource, RoutingMode, StreamCheck,
    Warehouse,
};
use blaze::graph::StreamId;
use blaze::storage::names::{
    cached_layer_name, data_file_name, folded_layer_name, sequence_of, sequences_of,
    sidecar_name, snapshot_name,
};
use blaze::text::{decimal_text, parse_decimal, quote};

#[test]
fn objects_are_named_by_sequence() {
    assert_eq!(snapshot_name(42), "snap-000000000042.json");
    assert_eq!(sidecar_name(7), "dsu-000000000007.puffin");
    assert_eq!(cached_layer_name(7), "routing-layer-000000000007.puffin");
    assert_eq!(folded_layer_name("w-1", 3, true), "routing-w-1-000000000003-base.puffin");
    assert_eq!(folded_layer_name("w-1", 3, false), "routing-w-1-000000000003-delta.puffin");
    assert_eq!(data_file_name(9, "abc"), "part-000000000009-abc.parquet");
    assert_eq!(snapshot_name(u64::MAX), "snap-18446744073709551615.json");
}

#[test]
fn snapshot_names_read_back() {
    assert_eq!(sequence_of("snap-000000000042.json"), Some(42));
    assert_eq!(sequence_of("snap-42.json"), Some(42));
    assert_eq!(sequence_of("snap-.json"), None);
    assert_eq!(sequence_of("dsu-000000000042.json"), None);
    assert_eq!(sequence_of("snap-000000000042.puffin"), None);
    let names = vec![snapshot_name(9), "x".to_string(), snapshot_name(1_000_000), snapshot_name(2)];
    assert_eq!(sequences_of(&names), vec![2, 9, 1_000_000]);
    assert!(snapshot_name(9) < snapshot_name(10));
}

#[test]
fn numbers_read_back() {
    for n in [0u64, 9, 10, 12_345, u64::MAX] {
        assert_eq!(decimal_text(n), n.to_string());
        assert_eq!(parse_decimal(&decimal_text(n), u64::MAX), Some(n));
    }
    assert_eq!(parse_decimal("+7", 10), Some(7));
    assert_eq!(parse_decimal("11", 10), None);
    assert_eq!(parse_decimal("", 10), None);
    assert_eq!(parse_decimal("1x", 10), None);
    assert_eq!(parse_decimal("18446744073709551616", u64::MAX), None);
    assert_eq!(quote("a\"b"), "\"a\\\"b\"");
}

#[test]
fn warehouses_are_told_apart_by_scheme() {
    match warehouse_of("file://./blaze-warehouse").unwrap() {
        Warehouse::File { path } => assert_eq!(path, "./blaze-warehouse"),
        w => panic!("{w:?}"),
    }
    assert!(matches!(warehouse_of("memory://"), Ok(Warehouse::Memory)));
    match warehouse_of("s3://bucket/some/prefix").unwrap() {
        Warehouse::S3 { bucket } => assert_eq!(bucket, "bucket"),
        w => panic!("{w:?}"),
    }
    assert_eq!(warehouse_of("s3:///prefix").unwrap_err(), ConfigError::MissingBucket);
    let e = warehouse_of("ftp://x").unwrap_err();
    assert_eq!(e.to_text("ftp://x"), "unsupported warehouse uri 'ftp://x' (file://, s3://, memory://)");
}

#[test]
fn buckets_have_prefixes() {
    assert_eq!(s3_bucket("s3://b").unwrap(), "b");
    assert_eq!(s3_bucket("s3://").unwrap_err().to_text("s3://"), "s3 uri missing bucket: s3://");
    assert_eq!(s3_table_prefix("s3://b/some/prefix//", "graph/edges"), "some/prefix/graph/edges");
    assert_eq!(s3_table_prefix("s3://b/", "graph/edges"), "graph/edges");
    assert_eq!(s3_table_prefix("s3://b", "graph/edges"), "graph/edges");
    assert_eq!(s3_table_prefix("memory://", "t"), "t");
}

#[test]
fn modes_have_names() {
    assert_eq!(routing_mode("ram"), Ok(RoutingMode::Ram));
    assert_eq!(routing_mode("disk"), Ok(RoutingMode::Disk));
    assert_eq!(
        routing_mode("tape").unwrap_err().to_text("tape"),
        "unknown --routing-base 'tape' (ram, disk)"
    );
    assert_eq!(election_mode("static:true"), Ok(Election::Static { leader: true }));
    assert_eq!(election_mode("static:false"), Ok(Election::Static { leader: false }));
    assert_eq!(election_mode("k8s"), Ok(Election::Kubernetes));
    assert_eq!(
        election_mode("zk").unwrap_err().to_text("zk"),
        "unknown election mode 'zk' (static:true, static:false, k8s)"
    );
    assert_eq!(event_source(true, false), Ok(EventSource::Log));
    assert_eq!(event_source(false, true), Ok(EventSource::Injected { simulate: true }));
    let both = event_source(true, true).unwrap_err();
    assert_eq!(both, ConfigError::TwoSources);
    assert!(both.to_text("").contains("pick one"));
}

#[test]
fn a_changed_stream_is_refused_by_default() {
    let a = StreamId::new("file", "a.ndjson");
    let b = StreamId::new("file", "b.ndjson");
    assert_eq!(check_stream(Some(&a), Some(&b), false), StreamCheck::Refused);
    assert_eq!(check_stream(Some(&a), Some(&b), true), StreamCheck::Allowed);
    assert_eq!(check_stream(Some(&a), Some(&a.clone().with_group("g")), false), StreamCheck::Fine);
    assert_eq!(check_stream(None, Some(&b), false), StreamCheck::Fine);
    let text = stream_refusal(&a, &b);
    assert!(text.contains("file://a.ndjson") && text.contains("file://b.ndjson"), "{text}");
}
