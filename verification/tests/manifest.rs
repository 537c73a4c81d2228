//! Unit-level behaviour of the manifest types, the delta algorithm, the
//! binary codec and the key layout.
use bup::blob::{Blob, Document, PrevBlob};
use bup::blober::{BlobChunk, HashStore};
use bup::changed::{chunks_for_region, RecentWindow};
use bup::codec::{decode_document, encode_document};
use bup::hash_value::{hash_bytes, HashValue};
use bup::split_chunks;
use bup::storage::{chunk_key, parse_chunk_key, root_key};
use bup::CHUNK_SIZE;

fn hv(seed: u8) -> HashValue {
    HashValue::from_bytes(vec![seed; 32])
}

fn blob_of(seeds: &[u8], ts: i64) -> Blob {
    let mut b = Blob::empty_at(ts);
    let mut i = 0;
    while i < seeds.len() {
        b.set(i, hv(seeds[i]));
        i += 1;
    }
    b
}

#[test]
fn delta_reconstructs_prior_version() {
    // equal prefix, one change, shrink at the tail
    let newer = blob_of(&[1, 2, 9, 4], 20);
    let prior = blob_of(&[1, 2, 3, 4, 5, 6], 10);
    let delta = PrevBlob::from_diff(&newer, &prior);
    assert_eq!(delta.timestamp(), 10);
    // runs and diffs alternate: 2 equal, then hashes 3, 5, 6 differ with
    // an equal run of 1 between the first two
    assert_eq!(delta.same_chunks_lengths, vec![2, 1, 0]);
    assert_eq!(delta.unique_chunk_hashes().len(), 3);
    let rebuilt = delta.compute(&newer);
    assert_eq!(rebuilt.chunk_hashes(), prior.chunk_hashes());
    assert_eq!(rebuilt.timestamp(), 10);
}

#[test]
fn delta_of_identical_blobs_is_one_run() {
    let a = blob_of(&[7, 7, 8], 1);
    let b = blob_of(&[7, 7, 8], 2);
    let delta = PrevBlob::from_diff(&b, &a);
    assert_eq!(delta.same_chunks_lengths, vec![3]);
    assert!(delta.unique_chunk_hashes().is_empty());
    assert_eq!(delta.retained_size(), 0);
    assert_eq!(delta.compute(&b).chunk_hashes(), a.chunk_hashes());
}

#[test]
fn document_update_pushes_history_and_reconstructs() {
    let v0 = blob_of(&[1, 2, 3], 100);
    let v1 = blob_of(&[1, 9, 3], 200);
    let v2 = blob_of(&[1, 9, 9], 300);
    let mut doc = Document::new(v0.clone());
    doc.update(v1.clone());
    doc.update(v2.clone());
    assert_eq!(doc.current().chunk_hashes(), v2.chunk_hashes());
    assert_eq!(doc.versions().len(), 2);
    let got_v1 = doc.get_version(1).unwrap();
    assert_eq!(got_v1.chunk_hashes(), v1.chunk_hashes());
    let got_v0 = doc.get_version(0).unwrap();
    assert_eq!(got_v0.chunk_hashes(), v0.chunk_hashes());
    assert!(doc.get_version(2).is_none());
}

#[test]
fn blob_set_pads_gaps_and_verify_catches_them() {
    let mut b = Blob::empty_at(0);
    b.set(2, hv(5));
    assert_eq!(b.chunk_hashes().len(), 3);
    assert!(!b.verify_invariants());
    b.set(0, hv(1));
    b.set(1, hv(2));
    assert!(b.verify_invariants());
    assert_eq!(b.size(), 3 * CHUNK_SIZE as u64);
}

#[test]
fn codec_round_trips_bit_for_bit() {
    let v0 = blob_of(&[1, 2, 3, 4], -5);
    let v1 = blob_of(&[1, 2, 9], 1_700_000_001);
    let mut doc = Document::new(v0);
    doc.update(v1);
    let bytes = encode_document(&doc);
    let decoded = decode_document(&bytes).unwrap();
    let again = encode_document(&decoded);
    assert_eq!(bytes, again);
    assert_eq!(decoded.current().chunk_hashes(), doc.current().chunk_hashes());
    assert_eq!(decoded.current().timestamp(), doc.current().timestamp());
    assert_eq!(decoded.versions().len(), 1);
}

#[test]
fn codec_handles_multi_byte_varints() {
    // 300 chunk hashes force two-byte varint lengths and run values
    let mut newer = Blob::empty_at(7);
    let mut prior = Blob::empty_at(3);
    for i in 0..300usize {
        let h = hash_bytes(&i.to_le_bytes());
        newer.set(i, h.clone());
        prior.set(i, h);
    }
    prior.set(299, hv(1));
    let mut doc = Document::new(prior);
    doc.update(newer);
    let bytes = encode_document(&doc);
    let decoded = decode_document(&bytes).unwrap();
    assert_eq!(encode_document(&decoded), bytes);
    assert_eq!(decoded.versions()[0].same_chunks_lengths, vec![299]);
}

#[test]
fn truncated_manifest_is_rejected() {
    let doc = Document::new(blob_of(&[1, 2], 0));
    let bytes = encode_document(&doc);
    assert!(decode_document(&bytes[..bytes.len() - 1]).is_none());
    let mut extended = bytes.clone();
    extended.push(0);
    assert!(decode_document(&extended).is_none());
    assert!(decode_document(b"").is_none());
}

#[test]
fn encoding_layout_is_bit_stable() {
    // one hash of 0x11 bytes, timestamp 2: count varint, raw hash bytes,
    // little-endian timestamp, then an empty history
    let mut b = Blob::empty_at(2);
    b.set(0, hv(0x11));
    let doc = Document::new(b);
    let bytes = encode_document(&doc);
    let mut want = vec![1u8];
    want.extend_from_slice(&[0x11; 32]);
    want.extend_from_slice(&[2, 0, 0, 0, 0, 0, 0, 0]);
    want.push(0);
    assert_eq!(bytes, want);
}

#[test]
fn chunk_keys_parse_back() {
    let h = hash_bytes(b"some block");
    let key = chunk_key(&h);
    assert_eq!(key[0], b'C');
    assert_eq!(key.len(), 44);
    let parsed = parse_chunk_key(&key).unwrap();
    assert_eq!(parsed.bytes, h.bytes);

    assert!(parse_chunk_key(&root_key(b"name")).is_none());
    assert!(parse_chunk_key(b"Cnot-base64!!").is_none());
    assert!(parse_chunk_key(b"").is_none());
}

#[test]
fn root_keys_carry_their_prefix() {
    let key = root_key(b"volume");
    assert_eq!(key, b"Rvolume".to_vec());
}

#[test]
fn hash_store_deduplicates() {
    let mut known = HashStore::new();
    assert!(!known.contains(&hv(1)));
    known.add(hv(1));
    known.add(hv(1));
    assert!(known.contains(&hv(1)));
    assert!(!known.contains(&hv(2)));
    assert_eq!(known.chunks.len(), 1);
}

#[test]
fn blob_chunk_verifies_its_bytes() {
    let chunk = BlobChunk::from_bytes(b"payload");
    assert!(chunk.verify(b"payload"));
    assert!(!chunk.verify(b"payload!"));
}

#[test]
fn hashing_is_stable_and_32_bytes() {
    let a = hash_bytes(b"abc");
    let b = hash_bytes(b"abc");
    let c = hash_bytes(b"abd");
    assert_eq!(a.bytes.len(), 32);
    assert!(a == b);
    assert!(a != c);
    assert!(!a.is_zero());
    assert!(HashValue::zero().is_zero());
}

#[test]
fn split_pads_the_last_chunk() {
    let mut data = vec![7u8; CHUNK_SIZE];
    data.extend_from_slice(&[9u8; 10]);
    let chunks = split_chunks(&data);
    assert_eq!(chunks.len(), 2);
    assert_eq!(chunks[0], vec![7u8; CHUNK_SIZE]);
    assert_eq!(&chunks[1][..10], &[9u8; 10]);
    assert!(chunks[1][10..].iter().all(|b| *b == 0));
    assert!(split_chunks(b"").is_empty());
}

#[test]
fn changed_regions_map_to_chunk_indices() {
    // one 4 KiB block at the start of the device touches chunk 0 only
    assert_eq!(chunks_for_region(0, 1, 4096), (0, 1));
    // a region straddling the first chunk boundary touches chunks 0 and 1
    assert_eq!(chunks_for_region(127, 2, 4096), (0, 2));
    // an empty region touches nothing
    let (lo, hi) = chunks_for_region(5, 0, 4096);
    assert_eq!(lo, hi);
    // block units other than 4 KiB translate too
    assert_eq!(chunks_for_region(CHUNK_SIZE as u64, 1, 1), (1, 2));
}

#[test]
fn recent_window_forgets_oldest_entries() {
    let mut window = RecentWindow::new(2);
    assert!(!window.contains(7));
    window.record(7);
    window.record(8);
    assert!(window.contains(7) && window.contains(8));
    window.record(9);
    assert!(!window.contains(7));
    assert!(window.contains(8) && window.contains(9));
}
