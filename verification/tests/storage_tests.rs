use archiver_server::errors::StorageError;
use archiver_server::records::PageFetchIndex;
use archiver_server::storage::{RetrieveOutcome, Storage, StoreOutcome};

fn temp_base(tag: &str) -> String {
    let nanos = std::time::SystemTime::now()
        .duration_since(std::time::UNIX_EPOCH)
        .unwrap()
        .as_nanos();
    format!("/tmp/archiver_test_{}_{}", tag, nanos)
}

fn store_fully(s: &mut Storage, data: &[u8]) -> String {
    match s.store_content(data).unwrap() {
        StoreOutcome::Existing(id) => id,
        StoreOutcome::NeedsBlob(p) => s.commit_blob(p).unwrap(),
    }
}

#[test]
fn hello_world_identity_and_refcount() {
    let base = temp_base("hello");
    let mut s = Storage::new(&base).unwrap();
    let expected = "sha256:b94d27b9934d3e08a52e52d7da7dabfac484efe37a5380ee9088f7ace2efcde9";
    let first = match s.store_content(b"hello world").unwrap() {
        StoreOutcome::NeedsBlob(p) => {
            assert_eq!(p.identity_str(), expected);
            s.commit_blob(p).unwrap()
        }
        StoreOutcome::Existing(_) => panic!("fresh store must need a blob"),
    };
    assert_eq!(first, expected);
    let second = match s.store_content(b"hello world").unwrap() {
        StoreOutcome::Existing(id) => id,
        StoreOutcome::NeedsBlob(_) => panic!("repeat store must not create a second blob"),
    };
    assert_eq!(second, expected);
    let md = s.metadata_of(expected).unwrap().unwrap();
    assert_eq!(md.reference_count, 2);
    assert_eq!(md.size, 11);
    let stats = s.get_stats();
    assert_eq!(stats.content_count, 1);
    assert_eq!(stats.total_size, 11);
}

#[test]
fn retrieve_unknown_identity_is_not_found() {
    let base = temp_base("notfound");
    let s = Storage::new(&base).unwrap();
    let missing = "sha256:0000000000000000000000000000000000000000000000000000000000000000";
    match s.retrieve_content(missing) {
        Err(StorageError::NotFound) => {}
        other => panic!("expected NotFound, got {:?}", other),
    }
}

#[test]
fn round_trip_small_payload() {
    let base = temp_base("roundtrip");
    let mut s = Storage::new(&base).unwrap();
    let body = b"some compressible body text, body text, body text";
    let (id, compressed) = match s.store_content(body).unwrap() {
        StoreOutcome::NeedsBlob(p) => {
            let c = p.compressed_bytes().clone();
            (s.commit_blob(p).unwrap(), c)
        }
        StoreOutcome::Existing(_) => panic!("fresh store"),
    };
    // After commit the payload is in the hot cache.
    match s.retrieve_content(&id).unwrap() {
        RetrieveOutcome::Cached(v) => assert_eq!(v.as_slice(), body.as_slice()),
        RetrieveOutcome::OnDisk(_) => panic!("small payload should be cached"),
    }
    // Decoding the blob bytes reproduces the payload exactly.
    let v = s.decode_retrieved(&id, &compressed).unwrap();
    assert_eq!(v.as_slice(), body.as_slice());
}

#[test]
fn round_trip_large_payload_bypasses_cache() {
    let base = temp_base("large");
    let mut s = Storage::new(&base).unwrap();
    let mut body = Vec::new();
    let mut x: u64 = 11;
    while body.len() < 2_000_000 {
        x = x.wrapping_mul(6364136223846793005).wrapping_add(1442695040888963407);
        body.push((x >> 33) as u8);
    }
    let (id, compressed) = match s.store_content(&body).unwrap() {
        StoreOutcome::NeedsBlob(p) => {
            let c = p.compressed_bytes().clone();
            (s.commit_blob(p).unwrap(), c)
        }
        StoreOutcome::Existing(_) => panic!("fresh store"),
    };
    let path = match s.retrieve_content(&id).unwrap() {
        RetrieveOutcome::OnDisk(path) => path,
        RetrieveOutcome::Cached(_) => panic!("large payload must bypass the cache"),
    };
    assert!(path.starts_with(&format!("{}/content/", base)));
    assert!(path.ends_with(".zst"));
    let v = s.decode_retrieved(&id, &compressed).unwrap();
    assert_eq!(v, body);
    assert_eq!(s.get_stats().cache_size, 0);
}

#[test]
fn decode_of_corrupt_blob_is_compression_error() {
    let base = temp_base("corrupt");
    let mut s = Storage::new(&base).unwrap();
    let id = Storage::compute_hash(b"whatever");
    match s.decode_retrieved(&id, b"this is not a zstd frame") {
        Err(StorageError::CompressionError) => {}
        other => panic!("expected CompressionError, got {:?}", other),
    }
}

#[test]
fn cache_size_converges_to_capacity() {
    let base = temp_base("cachecap");
    let mut s = Storage::new(&base).unwrap();
    for i in 0..1100u32 {
        let body = format!("small payload number {}", i);
        store_fully(&mut s, body.as_bytes());
    }
    let stats = s.get_stats();
    assert_eq!(stats.content_count, 1100);
    assert!(stats.cache_size <= 1000);
    assert!(stats.cache_size >= 999);
}

#[test]
fn stats_sum_known_sizes() {
    let base = temp_base("stats");
    let mut s = Storage::new(&base).unwrap();
    let a = vec![b'a'; 10_000];
    let b = vec![b'b'; 5_000];
    let c = b"tiny".to_vec();
    store_fully(&mut s, &a);
    store_fully(&mut s, &b);
    store_fully(&mut s, &c);
    // A repeat store must not change the totals.
    store_fully(&mut s, &a);
    let stats = s.get_stats();
    assert_eq!(stats.content_count, 3);
    assert_eq!(stats.total_size, 15_004);
    assert!(stats.compressed_size > 0);
    // Runs of one byte compress well: ratio strictly inside (0, 1].
    assert!(stats.compressed_size < stats.total_size);
}

#[test]
fn fresh_storage_has_empty_stats() {
    let base = temp_base("empty");
    let s = Storage::new(&base).unwrap();
    let stats = s.get_stats();
    assert_eq!(stats.content_count, 0);
    assert_eq!(stats.cache_size, 0);
    assert_eq!(stats.total_size, 0);
    assert_eq!(stats.compressed_size, 0);
}

#[test]
fn identity_is_deterministic_and_separating() {
    let a1 = Storage::compute_hash(b"payload one");
    let a2 = Storage::compute_hash(b"payload one");
    let b = Storage::compute_hash(b"payload two");
    assert_eq!(a1, a2);
    assert_ne!(a1, b);
    assert!(a1.starts_with("sha256:"));
    assert_eq!(a1.len(), 71);
    // Known digest of the empty input: the hashing is real, not an echo.
    assert_eq!(
        Storage::compute_hash(b""),
        "sha256:e3b0c44298fc1c149afbf4c8996fb92427ae41e4649b934ca495991b7852b855"
    );
}

#[test]
fn page_fetch_paths_accumulate_per_session() {
    let base = temp_base("sessions");
    let mut s = Storage::new(&base).unwrap();
    let record = PageFetchIndex {
        session_id: "example.com".to_string(),
        page_url: "https://example.com/login".to_string(),
        timestamp: 1700000000123,
        navigation_id: "nav-1".to_string(),
        requests: Vec::new(),
        password_hashes: Vec::new(),
    };
    let p1 = s.store_page_fetch("example.com", &record).unwrap();
    assert!(p1.starts_with(&format!("{}/sessions/", base)));
    assert!(p1.contains("/example.com/"));
    assert!(p1.contains("1700000000123_"));
    assert!(p1.ends_with(".json"));
    // The date directory is ten characters, YYYY-MM-DD.
    let rest = &p1[base.len() + "/sessions/".len()..];
    let date = &rest[..rest.find('/').unwrap()];
    assert_eq!(date.len(), 10);
    assert_eq!(date.as_bytes()[4], b'-');
    assert_eq!(date.as_bytes()[7], b'-');
    let p2 = s.store_page_fetch("example.com", &record).unwrap();
    let paths = s.session_paths("example.com").unwrap();
    assert_eq!(paths, vec![p1, p2]);
    assert_eq!(s.session_paths("other.org").unwrap().len(), 0);
}

#[test]
fn two_requests_same_session_keep_arrival_order() {
    let base = temp_base("ninth");
    let mut s = Storage::new(&base).unwrap();
    let hash_a = store_fully(&mut s, b"A");
    let hash_b = store_fully(&mut s, b"B");
    assert_ne!(hash_a, hash_b);
    let mut page = PageFetchIndex {
        session_id: "example.com".to_string(),
        page_url: "https://example.com/".to_string(),
        timestamp: 1700000000000,
        navigation_id: "nav-9".to_string(),
        requests: Vec::new(),
        password_hashes: Vec::new(),
    };
    for (i, h) in [&hash_a, &hash_b].iter().enumerate() {
        page.requests.push(archiver_server::records::ArchivedRequest {
            request_id: format!("req-{}", i),
            timestamp: 1700000000000 + i as i64,
            method: "POST".to_string(),
            url: "https://example.com/api".to_string(),
            request_headers: Vec::new(),
            request_body_hash: Some((*h).clone()),
            request_body_size: Some(1),
            response: None,
        });
    }
    assert_eq!(page.requests.len(), 2);
    assert_eq!(page.requests[0].request_body_hash.as_deref(), Some(hash_a.as_str()));
    assert_eq!(page.requests[1].request_body_hash.as_deref(), Some(hash_b.as_str()));
}

#[test]
fn reopen_preserves_records_and_dedup() {
    let base = temp_base("reopen");
    {
        let mut s = Storage::new(&base).unwrap();
        store_fully(&mut s, b"hello world");
        let record = PageFetchIndex {
            session_id: "example.com".to_string(),
            page_url: "https://example.com/".to_string(),
            timestamp: 1700000000000,
            navigation_id: "nav-r".to_string(),
            requests: Vec::new(),
            password_hashes: Vec::new(),
        };
        s.store_page_fetch("example.com", &record).unwrap();
    }
    // Dropping the storage releases the index; a restarted process reopens
    // it with every record, session list and filter mark rebuilt.
    let mut s = Storage::new(&base).unwrap();
    let stats = s.get_stats();
    assert_eq!(stats.content_count, 1);
    assert_eq!(stats.total_size, 11);
    match s.store_content(b"hello world").unwrap() {
        StoreOutcome::Existing(id) => {
            let md = s.metadata_of(&id).unwrap().unwrap();
            assert_eq!(md.reference_count, 2);
        }
        StoreOutcome::NeedsBlob(_) => panic!("record must survive a reopen"),
    }
    assert_eq!(s.session_paths("example.com").unwrap().len(), 1);
}

#[test]
fn repeat_store_touches_neither_cache_nor_counters() {
    let base = temp_base("frame");
    let mut s = Storage::new(&base).unwrap();
    store_fully(&mut s, b"frame payload");
    let before = s.get_stats();
    assert_eq!(before.cache_size, 1);
    match s.store_content(b"frame payload").unwrap() {
        StoreOutcome::Existing(_) => {}
        StoreOutcome::NeedsBlob(_) => panic!("repeat store must take the duplicate path"),
    }
    let after = s.get_stats();
    assert_eq!(after.cache_size, before.cache_size);
    assert_eq!(after.content_count, before.content_count);
    assert_eq!(after.total_size, before.total_size);
    assert_eq!(after.compressed_size, before.compressed_size);
}
