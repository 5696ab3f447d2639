//! The Puffin container.

use blaze::storage::puffin::{
    self, check_ranges, find_property, footer_range, place, read, Blob, PuffinError,
};
use bytes::Bytes;

fn two_blobs() -> Vec<Blob> {
    vec![
        Blob {
            blob_type: "blaze-global-dsu-v1".into(),
            data: Bytes::from_static(b"hello"),
            properties: vec![("k".into(), "v".into())],
            snapshot_id: 42,
            sequence_number: 42,
        },
        Blob {
            blob_type: "blaze-scope-dsu-v1".into(),
            data: Bytes::from_static(b"world!"),
            properties: vec![("scope-id".into(), "17".into())],
            snapshot_id: 42,
            sequence_number: 42,
        },
    ]
}

#[test]
fn roundtrip() {
    let blobs = two_blobs();
    let footer = br#"{"created-by":"blaze"}"#;
    let file = puffin::write(&blobs, footer);

    assert_eq!(&file[..4], b"PFA1");
    assert_eq!(&file[file.len() - 4..], b"PFA1");
    assert_eq!(&file[footer_range(&file).unwrap()], footer);

    let parsed = read(&file, place(&blobs)).unwrap();
    assert_eq!(parsed.len(), 2);
    assert_eq!(parsed[0].blob_type, "blaze-global-dsu-v1");
    assert_eq!(parsed[0].data.as_ref(), b"hello");
    assert_eq!(parsed[1].data.as_ref(), b"world!");
    assert_eq!(find_property(&parsed[1].properties, "scope-id").unwrap(), "17");
    assert_eq!(parsed[0].snapshot_id, 42);
}

#[test]
fn rejects_garbage() {
    assert!(footer_range(b"nope").is_err());
    assert!(footer_range(b"PFA1xxxxxxxxxxxxxxxxxxxxPFA1").is_err());
}

#[test]
fn empty_blob_list_roundtrips() {
    let file = puffin::write(&[], b"{}");
    assert_eq!(&file[footer_range(&file).unwrap()], b"{}");
    assert!(read(&file, place(&[])).unwrap().is_empty());
}

#[test]
fn blobs_are_placed_one_after_the_other() {
    let metas = place(&two_blobs());
    assert_eq!(metas[0].range(), 4..9);
    assert_eq!(metas[1].range(), 9..15);
    assert!(check_ranges(&metas, 15).is_ok());
    assert!(matches!(check_ranges(&metas, 14), Err(PuffinError::BlobOutOfBounds { .. })));
}
