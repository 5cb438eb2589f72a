use archiver_server::codec::{decode_meta, decode_paths, encode_meta, encode_paths};
use archiver_server::errors::StorageError;
use archiver_server::records::ContentMetadata;

#[test]
fn metadata_record_round_trips() {
    let m = ContentMetadata {
        size: 123456,
        compressed_size: 777,
        content_type: Some("text/html".to_string()),
        first_seen: -42,
        reference_count: 9,
    };
    let bytes = encode_meta(&m);
    let back = decode_meta(&bytes).unwrap();
    assert_eq!(back.size, 123456);
    assert_eq!(back.compressed_size, 777);
    assert_eq!(back.content_type.as_deref(), Some("text/html"));
    assert_eq!(back.first_seen, -42);
    assert_eq!(back.reference_count, 9);
}

#[test]
fn metadata_record_without_type_round_trips() {
    let m = ContentMetadata {
        size: 0,
        compressed_size: 0,
        content_type: None,
        first_seen: 1700000000123,
        reference_count: 1,
    };
    let bytes = encode_meta(&m);
    let back = decode_meta(&bytes).unwrap();
    assert_eq!(back.content_type, None);
    assert_eq!(back.first_seen, 1700000000123);
}

#[test]
fn malformed_record_is_serialization_error() {
    match decode_meta(b"short") {
        Err(StorageError::SerializationError) => {}
        other => panic!("expected SerializationError, got {:?}", other),
    }
    let mut bytes = encode_meta(&ContentMetadata {
        size: 1,
        compressed_size: 1,
        content_type: None,
        first_seen: 0,
        reference_count: 1,
    });
    bytes.push(0);
    match decode_meta(&bytes) {
        Err(StorageError::SerializationError) => {}
        other => panic!("expected SerializationError, got {:?}", other),
    }
}

#[test]
fn path_lists_round_trip() {
    let paths = vec![
        "base/sessions/2024-01-01/a/1_abcd.json".to_string(),
        "base/sessions/2024-01-02/a/2_ef01.json".to_string(),
    ];
    let bytes = encode_paths(&paths);
    assert_eq!(decode_paths(&bytes).unwrap(), paths);
    let empty: Vec<String> = Vec::new();
    assert_eq!(encode_paths(&empty), Vec::<u8>::new());
    assert_eq!(decode_paths(&[]).unwrap(), empty);
    match decode_paths(b"\x05\x00") {
        Err(StorageError::SerializationError) => {}
        other => panic!("expected SerializationError, got {:?}", other),
    }
}
