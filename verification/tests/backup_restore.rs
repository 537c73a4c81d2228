//! End-to-end backup, restore, dedup, history and garbage-collection
//! behaviour against the in-memory store.
use bup::blob::Document;
use bup::hash_value::hash_bytes;
use bup::server_store::InMemoryStorage;
use bup::storage::{available_hashes, chunk_key, root_key};
use bup::{backup, gc, info, restore, restore_version, Error, CHUNK_SIZE};

const ROOT: &[u8] = b"target";

fn random_bytes(n: usize) -> Vec<u8> {
    let mut buf = vec![0u8; n];
    rand::fill(&mut buf[..]);
    buf
}

fn padded(mut data: Vec<u8>) -> Vec<u8> {
    let rem = data.len() % CHUNK_SIZE;
    if rem != 0 {
        data.resize(data.len() + CHUNK_SIZE - rem, 0u8);
    }
    data
}

#[test]
fn test_backup_and_restore() {
    let mut store = InMemoryStorage::new();
    let data = random_bytes(1024 * 1024 * 10);
    backup(&mut store, ROOT, &data, 1_700_000_000).unwrap();
    let restored = restore(&store, ROOT).unwrap();
    assert_eq!(restored, padded(data));
}

#[test]
fn test_backup_with_gc() {
    let mut store = InMemoryStorage::new();
    let mut data = random_bytes(1024 * 1024 * 10);
    backup(&mut store, ROOT, &data, 1).unwrap();

    // overwrite the first 8 MiB, back up again
    let fresh = random_bytes(1024 * 1024 * 8);
    data[..fresh.len()].copy_from_slice(&fresh);
    backup(&mut store, ROOT, &data, 2).unwrap();

    // drop the history so the first version's chunks become unreachable
    let rk = root_key(ROOT);
    let doc_bytes = store.get(&rk).unwrap();
    let doc = bup::codec::decode_document(&doc_bytes).unwrap();
    let trimmed = Document::new(doc.current().clone());
    let trimmed_bytes = bup::codec::encode_document(&trimmed);
    store.put(&rk, &trimmed_bytes);
    let before = store.object_count();
    gc(&mut store, ROOT).unwrap();
    assert!(store.object_count() < before);

    let restored = restore(&store, ROOT).unwrap();
    assert_eq!(restored, padded(data));
}

#[test]
fn test_backup_increasing_size() {
    let mut store = InMemoryStorage::new();
    let data = random_bytes(1024 * 1024 * 10);
    backup(&mut store, ROOT, &data, 1).unwrap();

    let mut grown = data.clone();
    grown.extend_from_slice(&random_bytes(1024 * 1024 * 2));
    let uploaded = backup(&mut store, ROOT, &grown, 2).unwrap();
    assert_eq!(uploaded, 4);

    let restored = restore(&store, ROOT).unwrap();
    assert_eq!(restored, padded(grown));
}

#[test]
fn test_backup_decreasing_size() {
    let mut store = InMemoryStorage::new();
    let data = random_bytes(1024 * 1024 * 10);
    backup(&mut store, ROOT, &data, 1).unwrap();

    let shrunk = data[..1024 * 1024 * 8].to_vec();
    backup(&mut store, ROOT, &shrunk, 2).unwrap();

    let restored = restore(&store, ROOT).unwrap();
    assert_eq!(restored, padded(shrunk));
    // the retained prior version still reconstructs the original data
    let old = restore_version(&store, ROOT, 0).unwrap();
    assert_eq!(old, padded(data));
}

#[test]
fn small_text_file_round_trips() {
    let mut store = InMemoryStorage::new();
    let mut data: Vec<u8> = Vec::with_capacity(13 * 1_048_576);
    for _ in 0..1_048_576 {
        data.extend_from_slice(b"Hello, World!");
    }
    backup(&mut store, ROOT, &data, 42).unwrap();
    let restored = restore(&store, ROOT).unwrap();
    let want = 13 * 1_048_576;
    assert_eq!(restored.len(), (want + CHUNK_SIZE - 1) / CHUNK_SIZE * CHUNK_SIZE);
    assert_eq!(&restored[..want], &data[..]);
    assert!(restored[want..].iter().all(|b| *b == 0));
}

#[test]
fn update_replaces_content_and_keeps_one_delta() {
    let mut store = InMemoryStorage::new();
    let mut first: Vec<u8> = Vec::new();
    let mut second: Vec<u8> = Vec::new();
    for _ in 0..1_048_576 {
        first.extend_from_slice(b"Initial content");
        second.extend_from_slice(b"Updated content");
    }
    backup(&mut store, ROOT, &first, 1).unwrap();
    backup(&mut store, ROOT, &second, 2).unwrap();
    let restored = restore(&store, ROOT).unwrap();
    assert_eq!(restored, padded(second));
    let (_, _, versions) = info(&store, ROOT).unwrap();
    assert_eq!(versions.len(), 1);
}

#[test]
fn partial_overwrite_uploads_only_touched_chunks() {
    let mut store = InMemoryStorage::new();
    let mut data = random_bytes(1024 * 1024 * 10);
    backup(&mut store, ROOT, &data, 1).unwrap();

    let patch = random_bytes(1024 * 1024);
    let lo = 2 * 1024 * 1024;
    data[lo..lo + patch.len()].copy_from_slice(&patch);
    let uploaded = backup(&mut store, ROOT, &data, 2).unwrap();
    assert_eq!(uploaded, 2);

    let restored = restore(&store, ROOT).unwrap();
    assert_eq!(restored, padded(data));
}

#[test]
fn identical_backups_store_no_duplicate_chunks() {
    let mut store = InMemoryStorage::new();
    let data = random_bytes(1024 * 1024 * 10);
    let first = backup(&mut store, ROOT, &data, 1).unwrap();
    assert_eq!(first, 20);
    let second = backup(&mut store, ROOT, &data, 2).unwrap();
    assert_eq!(second, 0);
    // one object per chunk plus the root manifest
    assert_eq!(store.object_count(), 21);
}

#[test]
fn orphan_chunk_is_tolerated_and_collected() {
    let mut store = InMemoryStorage::new();
    let data = random_bytes(1024 * 1024);
    backup(&mut store, ROOT, &data, 1).unwrap();

    // inject a chunk object that no manifest references
    let orphan_bytes = b"orphan chunk".to_vec();
    let orphan_hash = hash_bytes(&orphan_bytes);
    let orphan_key = chunk_key(&orphan_hash);
    store.put(&orphan_key, &orphan_bytes);

    assert_eq!(available_hashes(&store).len(), 3);
    let restored = restore(&store, ROOT).unwrap();
    assert_eq!(restored, padded(data.clone()));
    backup(&mut store, ROOT, &data, 2).unwrap();

    gc(&mut store, ROOT).unwrap();
    assert!(!store.has(&orphan_key));
    assert_eq!(restore(&store, ROOT).unwrap(), padded(data));
}

#[test]
fn corrupted_chunk_fails_restore_with_hash_mismatch() {
    let mut store = InMemoryStorage::new();
    let data = random_bytes(CHUNK_SIZE * 3);
    backup(&mut store, ROOT, &data, 1).unwrap();

    // flip one byte of the second chunk object
    let second_chunk = hash_bytes(&data[CHUNK_SIZE..2 * CHUNK_SIZE]);
    let key = chunk_key(&second_chunk);
    let mut bytes = store.get(&key).unwrap();
    bytes[17] ^= 0x01;
    store.put(&key, &bytes);

    assert_eq!(restore(&store, ROOT), Err(Error::HashMismatch));
}

#[test]
fn restore_without_root_reports_not_found() {
    let store = InMemoryStorage::new();
    assert_eq!(restore(&store, ROOT), Err(Error::NotFound));
    assert_eq!(restore_version(&store, ROOT, 0), Err(Error::NotFound));
}

#[test]
fn unreadable_root_reports_serialization_error() {
    let mut store = InMemoryStorage::new();
    let rk = root_key(ROOT);
    store.put(&rk, b"not a manifest");
    assert_eq!(restore(&store, ROOT), Err(Error::SerializationError));
    assert_eq!(backup(&mut store, ROOT, b"abc", 1), Err(Error::SerializationError));
    assert_eq!(gc(&mut store, ROOT), Err(Error::SerializationError));
}

#[test]
fn version_out_of_range_reports_not_found() {
    let mut store = InMemoryStorage::new();
    let data = random_bytes(CHUNK_SIZE);
    backup(&mut store, ROOT, &data, 1).unwrap();
    assert_eq!(restore_version(&store, ROOT, 0), Err(Error::NotFound));
    backup(&mut store, ROOT, &data, 2).unwrap();
    assert!(restore_version(&store, ROOT, 0).is_ok());
    assert_eq!(restore_version(&store, ROOT, 1), Err(Error::NotFound));
}

#[test]
fn info_reports_sizes_and_timestamps() {
    let mut store = InMemoryStorage::new();
    let data = random_bytes(CHUNK_SIZE * 2 + 7);
    backup(&mut store, ROOT, &data, 1111).unwrap();
    let shrunk = data[..CHUNK_SIZE].to_vec();
    backup(&mut store, ROOT, &shrunk, 2222).unwrap();

    let (size, ts, versions) = info(&store, ROOT).unwrap();
    assert_eq!(size, CHUNK_SIZE as u64);
    assert_eq!(ts, 2222);
    assert_eq!(versions.len(), 1);
    assert_eq!(versions[0].0, 1111);
    // the prior version uniquely retains its two trailing chunks
    assert_eq!(versions[0].1, 2 * CHUNK_SIZE as u64);
}
