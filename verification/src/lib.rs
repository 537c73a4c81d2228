//! Verified core of a chunk-based backup tool: a file is split into
//! fixed-size chunks, each identified by its 32-byte content hash, and a
//! manifest (`Document`) records the current chunk-hash sequence together
//! with a reverse-delta history of earlier snapshots.
use vstd::prelude::*;

pub mod blob;
pub mod blober;
pub mod changed;
pub mod codec;
pub mod hash_value;
pub mod server_store;
pub mod storage;

verus! {

/// Size in bytes of one fixed chunk of the backed-up file.
pub const CHUNK_SIZE: usize = 512 * 1024;

/// The error kinds surfaced by the library's operations.
#[derive(Clone, Copy, Debug, PartialEq, Eq, Structural)]
pub enum Error {
    /// Reading the source file or device failed.
    ReadError,
    /// An object-store operation failed in a way other than "not found".
    StoreError,
    /// A required object (root manifest or chunk) is absent.
    NotFound,
    /// A fetched chunk's content hash did not match its key.
    HashMismatch,
    /// A placeholder hash survived to publish time.
    InvariantViolation,
    /// The stored root manifest could not be decoded.
    SerializationError,
    /// The operation was cancelled before the root was written.
    Cancelled,
}


broadcast use crate::hash_value::lemma_hash_vec_deep_view;

/// Number of fixed-size chunks that cover `len` bytes.
pub open spec fn chunk_count(len: nat) -> nat {
    if len % (CHUNK_SIZE as nat) == 0 {
        len / (CHUNK_SIZE as nat)
    } else {
        len / (CHUNK_SIZE as nat) + 1
    }
}

/// The data zero-padded to the next chunk boundary.
pub open spec fn padded(data: Seq<u8>) -> Seq<u8> {
    data + Seq::new(
        (chunk_count(data.len()) * CHUNK_SIZE - data.len()) as nat,
        |i: int| 0u8,
    )
}

/// The bytes of chunk `i` of the padded data.
#[verifier::opaque]
pub open spec fn chunk_at(data: Seq<u8>, i: int) -> Seq<u8> {
    padded(data).subrange(i * CHUNK_SIZE, (i + 1) * CHUNK_SIZE)
}

/// The content hashes of all chunks, in file order.
pub open spec fn chunk_hashes_of(data: Seq<u8>) -> Seq<Seq<u8>> {
    Seq::new(chunk_count(data.len()), |i: int| crate::hash_value::blake3_of(chunk_at(data, i)))
}

/// The padded length covers the data and wastes less than one chunk.
pub proof fn lemma_chunk_bounds(len: nat)
    ensures
        len <= chunk_count(len) * CHUNK_SIZE,
        chunk_count(len) * CHUNK_SIZE < len + CHUNK_SIZE,
        len > 0 ==> (chunk_count(len) - 1) * CHUNK_SIZE < len,
{
    let c = CHUNK_SIZE as nat;
    assert(len == (len / c) * c + len % c) by (nonlinear_arith)
        requires
            c > 0,
    ;
    assert(len % c < c) by (nonlinear_arith)
        requires
            c > 0,
    ;
    let q = len / c;
    if len % c == 0 {
        assert(chunk_count(len) == q);
        assert(q * c == len);
        if len > 0 {
            assert(q >= 1);
            assert((q - 1) * c == q * c - c) by (nonlinear_arith)
                requires
                    q >= 1,
            ;
        }
    } else {
        assert(chunk_count(len) == q + 1);
        assert((q + 1) * c == q * c + c) by (nonlinear_arith);
        assert(((q + 1) - 1) * c == q * c) by (nonlinear_arith);
    }
}

#[verifier::spinoff_prover]
proof fn lemma_chunk_assembled(data: Seq<u8>, i: int, chunkv: Seq<u8>, avail: int)
    requires
        0 <= i < chunk_count(data.len()),
        avail == if data.len() - i * CHUNK_SIZE < CHUNK_SIZE {
            data.len() - i * CHUNK_SIZE
        } else {
            CHUNK_SIZE as int
        },
        i * CHUNK_SIZE < data.len(),
        chunkv.len() == CHUNK_SIZE,
        chunkv.take(avail) == data.subrange(i * CHUNK_SIZE, i * CHUNK_SIZE + avail),
        forall|k: int| avail <= k < chunkv.len() ==> chunkv[k] == 0u8,
        data.len() <= chunk_count(data.len()) * CHUNK_SIZE,
        (i + 1) * CHUNK_SIZE <= chunk_count(data.len()) * CHUNK_SIZE,
    ensures
        chunkv == chunk_at(data, i),
{
    reveal(chunk_at);
    assert(padded(data).len() == chunk_count(data.len()) * CHUNK_SIZE);
    assert(i * CHUNK_SIZE >= 0) by (nonlinear_arith)
        requires
            i >= 0,
            CHUNK_SIZE >= 1,
    ;
    assert((i + 1) * CHUNK_SIZE == i * CHUNK_SIZE + CHUNK_SIZE) by (nonlinear_arith);
    assert forall|k: int| 0 <= k < CHUNK_SIZE implies chunkv[k] == chunk_at(data, i)[k] by {
        assert(0 <= i * CHUNK_SIZE + k < padded(data).len());
        assert(chunk_at(data, i)[k] == padded(data)[i * CHUNK_SIZE + k]);
        if k < avail {
            assert(chunkv[k] == chunkv.take(avail)[k]);
            assert(chunkv[k] == data[i * CHUNK_SIZE + k]);
            assert(padded(data)[i * CHUNK_SIZE + k] == data[i * CHUNK_SIZE + k]);
        } else {
            assert(i * CHUNK_SIZE + k >= data.len());
            assert(padded(data)[i * CHUNK_SIZE + k] == 0u8);
        }
    }
    assert(chunkv =~= chunk_at(data, i));
}

/// Splits the data into zero-padded fixed-size chunks.
#[verifier::loop_isolation(false)]
pub fn split_chunks(data: &[u8]) -> (r: Vec<Vec<u8>>)
    ensures
        r@.len() == chunk_count(data@.len()),
        forall|i: int| 0 <= i < r@.len() ==> #[trigger] r@[i]@ == chunk_at(data@, i),
{
    let len = data.len();
    proof {
        lemma_chunk_bounds(len as nat);
    }
    let n = if len % CHUNK_SIZE == 0 {
        len / CHUNK_SIZE
    } else {
        len / CHUNK_SIZE + 1
    };
    assert(n == chunk_count(len as nat));
    let mut out: Vec<Vec<u8>> = Vec::new();
    let mut i: usize = 0;
    while i < n
        invariant
            i <= n,
            out@.len() == i,
            forall|j: int| 0 <= j < i ==> #[trigger] out@[j]@ == chunk_at(data@, j),
        decreases n - i,
    {
        proof {
            assert(i * CHUNK_SIZE < len && (i * CHUNK_SIZE) + CHUNK_SIZE <= n * CHUNK_SIZE)
                by (nonlinear_arith)
                requires
                    i < n,
                    len <= n * CHUNK_SIZE,
                    (n - 1) * CHUNK_SIZE < len,
                    CHUNK_SIZE > 0,
            ;
        }
        let start = i * CHUNK_SIZE;
        let avail = if len - start < CHUNK_SIZE {
            len - start
        } else {
            CHUNK_SIZE
        };
        let mut chunk = crate::codec::read_exact(data, start, avail);
        while chunk.len() < CHUNK_SIZE
            invariant
                avail <= chunk@.len() <= CHUNK_SIZE,
                chunk@.take(avail as int) == data@.subrange(start as int, start + avail),
                forall|k: int| avail <= k < chunk@.len() ==> chunk@[k] == 0u8,
            decreases CHUNK_SIZE - chunk@.len(),
        {
            chunk.push(0u8);
            assert(chunk@.take(avail as int) =~= data@.subrange(start as int, start + avail));
        }
        proof {
            lemma_chunk_assembled(data@, i as int, chunk@, avail as int);
        }
        out.push(chunk);
        i = i + 1;
    }
    out
}


/// The number of chunk uploads a backup performs: one for each hash that
/// is neither already in the store nor repeated earlier in the file.
pub open spec fn new_hash_count(hs: Seq<Seq<u8>>, s0: Map<Seq<u8>, Seq<u8>>) -> int
    decreases hs.len(),
{
    if hs.len() == 0 {
        0
    } else {
        new_hash_count(hs.drop_last(), s0) + if s0.dom().contains(
            crate::storage::chunk_key_spec(hs.last()),
        ) || hs.drop_last().contains(hs.last()) {
            0int
        } else {
            1int
        }
    }
}

/// The manifest written by a first backup.
pub open spec fn fresh_doc(data: Seq<u8>, ts: int) -> crate::blob::DocumentModel {
    crate::blob::DocumentModel {
        current: crate::blob::BlobModel { hashes: chunk_hashes_of(data), timestamp: ts },
        history: Seq::empty(),
    }
}

/// The manifest written by a backup over a prior manifest `d`.
pub open spec fn updated_doc(
    d: crate::blob::DocumentModel,
    data: Seq<u8>,
    ts: int,
) -> crate::blob::DocumentModel {
    let hs = chunk_hashes_of(data);
    crate::blob::DocumentModel {
        current: crate::blob::BlobModel { hashes: hs, timestamp: ts },
        history: d.history.push(
            crate::blob::PrevBlobModel {
                runs: crate::blob::diff_runs(hs, d.current.hashes),
                diffs: crate::blob::diff_diffs(hs, d.current.hashes),
                timestamp: d.current.timestamp,
            },
        ),
    }
}

/// What `backup` promises: on success the store gained exactly the new
/// chunk objects and the re-written root; nothing else moved, and the
/// count of uploads is returned. On failure the store is unchanged and
/// the error names the cause.
#[verifier::opaque]
pub open spec fn backup_ensures(
    s0: Map<Seq<u8>, Seq<u8>>,
    s1: Map<Seq<u8>, Seq<u8>>,
    name: Seq<u8>,
    data: Seq<u8>,
    ts: int,
    r: Result<u64, Error>,
) -> bool {
    let rk = crate::storage::root_key_spec(name);
    let hs = chunk_hashes_of(data);
    match r {
        Ok(uploaded) => {
            &&& (forall|i: int|
                0 <= i < hs.len() ==> (#[trigger] hs[i]) != crate::hash_value::zero_hash())
            &&& uploaded as int == new_hash_count(hs, s0)
            &&& (forall|i: int| 0 <= i < hs.len() ==> crate::storage::b64_round_trips(#[trigger] hs[i]))
            &&& (forall|k: Seq<u8>|
                #[trigger] s1.dom().contains(k) <==> (s0.dom().contains(k) || k == rk || exists|
                    j: int,
                |
                    0 <= j < hs.len() && k == crate::storage::chunk_key_spec(#[trigger] hs[j])))
            &&& s1[rk] == (if s0.dom().contains(rk) {
                s1[rk]
            } else {
                crate::codec::doc_enc(fresh_doc(data, ts))
            })
            &&& (s0.dom().contains(rk) ==> forall|d: crate::blob::DocumentModel|
                d.wf() && s0[rk] == crate::codec::doc_enc(d) ==> s1[rk] == crate::codec::doc_enc(
                    #[trigger] updated_doc(d, data, ts),
                ))
            &&& (forall|i: int|
                0 <= i < hs.len() && s0.dom().contains(
                    crate::storage::chunk_key_spec(#[trigger] hs[i]),
                ) ==> s1[crate::storage::chunk_key_spec(hs[i])] == s0[crate::storage::chunk_key_spec(
                    hs[i],
                )])
            &&& (forall|i: int|
                0 <= i < hs.len() && !s0.dom().contains(
                    crate::storage::chunk_key_spec(#[trigger] hs[i]),
                ) ==> exists|j: int|
                    0 <= j < hs.len() && hs[j] == hs[i] && s1[crate::storage::chunk_key_spec(
                        hs[i],
                    )] == chunk_at(data, j))
            &&& (forall|k: Seq<u8>|
                #[trigger] s0.dom().contains(k) && k != rk && (forall|j: int|
                    0 <= j < hs.len() ==> k != crate::storage::chunk_key_spec(#[trigger] hs[j]))
                    ==> s1[k] == s0[k])
        },
        Err(e) => {
            &&& s1 == s0
            &&& (e == Error::SerializationError || e == Error::InvariantViolation)
            &&& (e == Error::SerializationError ==> s0.dom().contains(rk) && !(exists|
                d: crate::blob::DocumentModel,
            |
                d.wf() && s0[rk] == #[trigger] crate::codec::doc_enc(d)))
            &&& (e == Error::InvariantViolation ==> exists|i: int|
                0 <= i < hs.len() && #[trigger] hs[i] == crate::hash_value::zero_hash())
        },
    }
}

/// Chunk keys and the root key never collide: their first bytes differ.
pub proof fn lemma_keys_disjoint(name: Seq<u8>, h: Seq<u8>)
    ensures
        crate::storage::root_key_spec(name) != crate::storage::chunk_key_spec(h),
{
    let rk = crate::storage::root_key_spec(name);
    let ck = crate::storage::chunk_key_spec(h);
    assert(rk[0] == crate::storage::ROOT_KEY_PREFIX);
    assert(ck[0] == crate::storage::CHUNK_KEY_PREFIX);
}

/// Two hashes with the same chunk key are equal, as long as both read
/// back from their own encodings.
pub proof fn lemma_chunk_key_injective(a: Seq<u8>, b: Seq<u8>)
    requires
        crate::storage::chunk_key_spec(a) == crate::storage::chunk_key_spec(b),
        crate::storage::b64_round_trips(a),
        crate::storage::b64_round_trips(b),
    ensures
        a == b,
{
    assert(crate::storage::chunk_key_spec(a).skip(1) =~= crate::storage::b64url_of(a));
    assert(crate::storage::chunk_key_spec(b).skip(1) =~= crate::storage::b64url_of(b));
    assert(crate::storage::b64url_of(a) == crate::storage::b64url_of(b));
}

proof fn lemma_new_hash_count_step(hs: Seq<Seq<u8>>, s0: Map<Seq<u8>, Seq<u8>>, i: int)
    requires
        0 <= i < hs.len(),
    ensures
        new_hash_count(hs.take(i + 1), s0) == new_hash_count(hs.take(i), s0) + if s0.dom().contains(
            crate::storage::chunk_key_spec(hs[i]),
        ) || hs.take(i).contains(hs[i]) {
            0int
        } else {
            1int
        },
{
    assert(hs.take(i + 1).drop_last() =~= hs.take(i));
    assert(hs.take(i + 1).last() == hs[i]);
}

/// Backs the byte string up into the store under the named root: splits
/// it into chunks, hashes them, uploads those the store does not already
/// hold, and atomically replaces the root manifest, recording the prior
/// snapshot as a reverse delta.
#[verifier::loop_isolation(false)]
#[verifier::rlimit(100)]
pub fn backup(
    store: &mut crate::server_store::InMemoryStorage,
    root_name: &[u8],
    data: &[u8],
    timestamp: i64,
) -> (r: Result<u64, Error>)
    requires
        old(store).wf(),
    ensures
        final(store).wf(),
        backup_ensures(old(store)@, final(store)@, root_name@, data@, timestamp as int, r),
{
    proof {
        reveal(backup_ensures);
    }
    let ghost s0 = store@;
    let ghost hs = chunk_hashes_of(data@);
    let rk = crate::storage::root_key(root_name);
    let doc_opt: Option<crate::blob::Document> = match store.get(rk.as_slice()) {
        Some(bytes) => {
            match crate::codec::decode_document(bytes.as_slice()) {
                Some(d) => Some(d),
                None => {
                    proof {
                        assert forall|d: crate::blob::DocumentModel|
                            !(d.wf() && s0[rk@] == crate::codec::doc_enc(d)) by {
                            if d.wf() && bytes@ == crate::codec::doc_enc(d) {
                                assert(false);
                            }
                        }
                    }
                    return Err(Error::SerializationError);
                },
            }
        },
        None => None,
    };
    let ghost root_present = s0.dom().contains(rk@);
    let avail = crate::storage::available_hashes(store);
    let mut known = crate::blober::HashStore::new();
    let mut t: usize = 0;
    while t < avail.len()
        invariant
            t <= avail@.len(),
            forall|h: Seq<u8>|
                #[trigger] known@.contains(h) <==> exists|j: int|
                    0 <= j < t && #[trigger] avail@[j]@ == h,
        decreases avail@.len() - t,
    {
        known.add(avail[t].clone());
        t = t + 1;
    }
    let chunks = split_chunks(data);
    let n = chunks.len();
    let mut hashes: Vec<crate::hash_value::HashValue> = Vec::new();
    let mut i: usize = 0;
    while i < n
        invariant
            i <= n,
            hashes@.len() == i,
            forall|j: int| 0 <= j < i ==> #[trigger] hashes@[j]@ == hs[j],
        decreases n - i,
    {
        hashes.push(crate::hash_value::hash_bytes(chunks[i].as_slice()));
        i = i + 1;
    }
    let mut blob = match &doc_opt {
        Some(d) => d.current().fork_at(timestamp),
        None => crate::blob::Blob::empty_at(timestamp),
    };
    let ghost orig_len = blob@.hashes.len();
    i = 0;
    while i < n
        invariant
            i <= n,
            blob@.hashes.len() == if orig_len >= i as int {
                orig_len as int
            } else {
                i as int
            },
            forall|j: int| 0 <= j < i ==> #[trigger] blob@.hashes[j] == hs[j],
            blob@.timestamp == timestamp as int,
        decreases n - i,
    {
        blob.set(i, hashes[i].clone());
        i = i + 1;
    }
    blob.truncate_chunks(n);
    proof {
        assert(blob@.hashes =~= hs);
    }
    let ghost blob_model = blob@;
    if !blob.verify_invariants() {
        proof {
            assert(exists|j: int|
                0 <= j < hs.len() && #[trigger] hs[j] == crate::hash_value::zero_hash());
        }
        return Err(Error::InvariantViolation);
    }
    let mut uploaded: u64 = 0;
    i = 0;
    while i < n
        invariant
            i <= n,
            store.wf(),
            uploaded <= i,
            uploaded as int == new_hash_count(hs.take(i as int), s0),
            forall|j: int| 0 <= j < i ==> crate::storage::b64_round_trips(#[trigger] hs[j]),
            forall|h: Seq<u8>|
                #[trigger] known@.contains(h) <==> ((exists|j: int|
                    0 <= j < avail@.len() && #[trigger] avail@[j]@ == h) || hs.take(
                    i as int,
                ).contains(h)),
            forall|k: Seq<u8>|
                #[trigger] store@.dom().contains(k) <==> (s0.dom().contains(k) || exists|j: int|
                    0 <= j < i && k == crate::storage::chunk_key_spec(#[trigger] hs[j])),
            forall|k: Seq<u8>|
                #[trigger] store@.dom().contains(k) ==> ((s0.dom().contains(k) && store@[k]
                    == s0[k]) || (exists|j: int|
                    0 <= j < i && k == crate::storage::chunk_key_spec(#[trigger] hs[j])
                        && !s0.dom().contains(k) && store@[k] == chunk_at(data@, j))),
        decreases n - i,
    {
        let key = crate::storage::chunk_key(&hashes[i]);
        proof {
            lemma_new_hash_count_step(hs, s0, i as int);
        }
        if !known.contains(&hashes[i]) {
            proof {
                assert(!s0.dom().contains(crate::storage::chunk_key_spec(hs[i as int])));
                assert(!hs.take(i as int).contains(hs[i as int]));
            }
            known.add(hashes[i].clone());
            let ghost pre = store@;
            store.put(key.as_slice(), chunks[i].as_slice());
            proof {
                assert(store@ == pre.insert(
                    crate::storage::chunk_key_spec(hs[i as int]),
                    chunk_at(data@, i as int),
                ));
            }
            uploaded = uploaded + 1;
        } else {
            proof {
                if !hs.take(i as int).contains(hs[i as int]) {
                    let j = choose|j: int|
                        0 <= j < avail@.len() && #[trigger] avail@[j]@ == hs[i as int];
                    assert(s0.dom().contains(crate::storage::chunk_key_spec(hs[i as int])));
                }
            }
        }
        proof {
            assert forall|h: Seq<u8>|
                #[trigger] known@.contains(h) <==> ((exists|j: int|
                    0 <= j < avail@.len() && #[trigger] avail@[j]@ == h) || hs.take(
                    i + 1,
                ).contains(h)) by {
                if hs.take(i + 1).contains(h) && !hs.take(i as int).contains(h) {
                    let j = choose|j: int| 0 <= j < i + 1 && #[trigger] hs.take(i + 1)[j] == h;
                    assert(hs[i as int] == h);
                }
                if hs.take(i as int).contains(h) {
                    let j = choose|j: int| 0 <= j < i && #[trigger] hs.take(i as int)[j] == h;
                    assert(hs.take(i + 1)[j] == h);
                }
            }
        }
        i = i + 1;
    }
    let doc = match doc_opt {
        Some(mut d) => {
            d.update(blob);
            d
        },
        None => crate::blob::Document::new(blob),
    };
    let enc = crate::codec::encode_document(&doc);
    let ghost pre_root = store@;
    store.put(rk.as_slice(), enc.as_slice());
    proof {
        let s1 = store@;
        assert(s1 == pre_root.insert(rk@, enc@));
        assert forall|h: Seq<u8>| rk@ != #[trigger] crate::storage::chunk_key_spec(h) by {
            lemma_keys_disjoint(root_name@, h);
        }
        assert(hs.take(n as int) =~= hs);
        assert(uploaded as int == new_hash_count(hs, s0));
        assert forall|j: int|
            0 <= j < hs.len() implies (#[trigger] hs[j]) != crate::hash_value::zero_hash() by {
            assert(blob_model.hashes[j] == hs[j]);
        }
        assert forall|k: Seq<u8>|
            #[trigger] s1.dom().contains(k) <==> (s0.dom().contains(k) || k == rk@ || exists|
                j: int,
            |
                0 <= j < hs.len() && k == crate::storage::chunk_key_spec(#[trigger] hs[j])) by {
            if k != rk@ {
                assert(s1.dom().contains(k) == pre_root.dom().contains(k));
            }
        }
        if root_present {
            assert forall|d: crate::blob::DocumentModel|
                d.wf() && s0[rk@] == crate::codec::doc_enc(d) implies s1[rk@]
                == crate::codec::doc_enc(#[trigger] updated_doc(d, data@, timestamp as int)) by {
                assert(doc@.current.hashes == hs);
                assert(doc@.history == updated_doc(d, data@, timestamp as int).history);
                assert(doc@ == updated_doc(d, data@, timestamp as int));
            }
        } else {
            assert(doc@.current.hashes == hs);
            assert(doc@.history =~= Seq::<crate::blob::PrevBlobModel>::empty());
            assert(doc@ == fresh_doc(data@, timestamp as int));
        }
        assert forall|j: int|
            0 <= j < hs.len() && s0.dom().contains(
                crate::storage::chunk_key_spec(#[trigger] hs[j]),
            ) implies s1[crate::storage::chunk_key_spec(hs[j])] == s0[crate::storage::chunk_key_spec(
            hs[j],
        )] by {
            let ck = crate::storage::chunk_key_spec(hs[j]);
            assert(pre_root.dom().contains(ck));
            assert(s1[ck] == pre_root[ck]);
        }
        assert forall|j: int|
            0 <= j < hs.len() && !s0.dom().contains(
                crate::storage::chunk_key_spec(#[trigger] hs[j]),
            ) implies exists|j2: int|
            0 <= j2 < hs.len() && hs[j2] == hs[j] && s1[crate::storage::chunk_key_spec(hs[j])]
                == chunk_at(data@, j2) by {
            let ck = crate::storage::chunk_key_spec(hs[j]);
            assert(pre_root.dom().contains(ck));
            let j2 = choose|j2: int|
                0 <= j2 < n && ck == crate::storage::chunk_key_spec(#[trigger] hs[j2])
                    && !s0.dom().contains(ck) && pre_root[ck] == chunk_at(data@, j2);
            assert(crate::storage::chunk_key_spec(hs[j2]).skip(1) =~= crate::storage::b64url_of(
                hs[j2],
            ));
            assert(crate::storage::chunk_key_spec(hs[j]).skip(1) =~= crate::storage::b64url_of(
                hs[j],
            ));
            assert(crate::storage::b64url_of(hs[j2]) == crate::storage::b64url_of(hs[j]));
            assert(hs[j2] == hs[j]);
            assert(s1[ck] == chunk_at(data@, j2));
        }
        assert forall|k: Seq<u8>|
            #[trigger] s0.dom().contains(k) && k != rk@ && (forall|j: int|
                0 <= j < hs.len() ==> k != crate::storage::chunk_key_spec(#[trigger] hs[j]))
            implies s1[k] == s0[k] by {
            assert(pre_root.dom().contains(k));
            assert(pre_root[k] == s0[k]);
            assert(s1[k] == pre_root[k]);
        }
        assert(backup_ensures(s0, store@, root_name@, data@, timestamp as int, Ok(uploaded)));
    }
    Ok(uploaded)
}


/// Every referenced chunk is present and its bytes hash to its key.
pub open spec fn chunks_all_good(s: Map<Seq<u8>, Seq<u8>>, hashes: Seq<Seq<u8>>) -> bool {
    forall|i: int|
        0 <= i < hashes.len() ==> s.dom().contains(
            crate::storage::chunk_key_spec(#[trigger] hashes[i]),
        ) && crate::hash_value::blake3_of(s[crate::storage::chunk_key_spec(hashes[i])])
            == hashes[i]
}

/// The stored chunk bytes for each hash, concatenated in file order.
pub open spec fn concat_chunks(s: Map<Seq<u8>, Seq<u8>>, hashes: Seq<Seq<u8>>) -> Seq<u8>
    decreases hashes.len(),
{
    if hashes.len() == 0 {
        Seq::empty()
    } else {
        s[crate::storage::chunk_key_spec(hashes[0])] + concat_chunks(s, hashes.skip(1))
    }
}

proof fn lemma_concat_chunks_push(s: Map<Seq<u8>, Seq<u8>>, hashes: Seq<Seq<u8>>, h: Seq<u8>)
    ensures
        concat_chunks(s, hashes.push(h)) == concat_chunks(s, hashes) + s[
            crate::storage::chunk_key_spec(h)
        ],
    decreases hashes.len(),
{
    if hashes.len() == 0 {
        assert(hashes.push(h)[0] == h);
        assert(hashes.push(h).skip(1) =~= Seq::<Seq<u8>>::empty());
        assert(concat_chunks(s, hashes.push(h).skip(1)) == Seq::<u8>::empty());
        assert(concat_chunks(s, hashes) == Seq::<u8>::empty());
        assert(concat_chunks(s, hashes.push(h)) =~= concat_chunks(s, hashes) + s[
            crate::storage::chunk_key_spec(h)
        ]);
    } else {
        assert(hashes.push(h)[0] == hashes[0]);
        assert(hashes.push(h).skip(1) =~= hashes.skip(1).push(h));
        lemma_concat_chunks_push(s, hashes.skip(1), h);
        assert(concat_chunks(s, hashes.push(h)) =~= concat_chunks(s, hashes) + s[
            crate::storage::chunk_key_spec(h)
        ]);
    }
}

/// What a fetch of one hash sequence promises about its result.
pub open spec fn fetch_ensures(
    s: Map<Seq<u8>, Seq<u8>>,
    hashes: Seq<Seq<u8>>,
    r: Result<Seq<u8>, Error>,
) -> bool {
    match r {
        Ok(out) => chunks_all_good(s, hashes) && out == concat_chunks(s, hashes),
        Err(e) => {
            &&& !chunks_all_good(s, hashes)
            &&& (e == Error::NotFound || e == Error::HashMismatch)
            &&& (e == Error::NotFound ==> exists|i: int|
                0 <= i < hashes.len() && !s.dom().contains(
                    crate::storage::chunk_key_spec(#[trigger] hashes[i]),
                ))
            &&& (e == Error::HashMismatch ==> exists|i: int|
                0 <= i < hashes.len() && s.dom().contains(
                    crate::storage::chunk_key_spec(#[trigger] hashes[i]),
                ) && crate::hash_value::blake3_of(s[crate::storage::chunk_key_spec(hashes[i])])
                    != hashes[i])
        },
    }
}

/// Fetches the chunks of one hash sequence in order, verifying each
/// fetched block against its hash, and concatenates them.
#[verifier::loop_isolation(false)]
pub fn fetch_blob(
    store: &crate::server_store::InMemoryStorage,
    hashes: &Vec<crate::hash_value::HashValue>,
) -> (r: Result<Vec<u8>, Error>)
    requires
        store.wf(),
    ensures
        fetch_ensures(
            store@,
            hashes.deep_view(),
            match r {
                Ok(v) => Ok(v@),
                Err(e) => Err(e),
            },
        ),
{
    let ghost dv = hashes.deep_view();
    let mut out: Vec<u8> = Vec::new();
    let mut i: usize = 0;
    while i < hashes.len()
        invariant
            i <= dv.len(),
            out@ == concat_chunks(store@, dv.take(i as int)),
            forall|j: int|
                0 <= j < i ==> store@.dom().contains(
                    crate::storage::chunk_key_spec(#[trigger] dv[j]),
                ) && crate::hash_value::blake3_of(store@[crate::storage::chunk_key_spec(dv[j])])
                    == dv[j],
        decreases dv.len() - i,
    {
        let key = crate::storage::chunk_key(&hashes[i]);
        match store.get(key.as_slice()) {
            None => {
                return Err(Error::NotFound);
            },
            Some(bytes) => {
                let h = crate::hash_value::hash_bytes(bytes.as_slice());
                if !(h == hashes[i]) {
                    return Err(Error::HashMismatch);
                }
                let mut piece = bytes;
                out.append(&mut piece);
                proof {
                    lemma_concat_chunks_push(store@, dv.take(i as int), dv[i as int]);
                    assert(dv.take(i + 1) =~= dv.take(i as int).push(dv[i as int]));
                }
            },
        }
        i = i + 1;
    }
    proof {
        assert(dv.take(dv.len() as int) =~= dv);
    }
    Ok(out)
}

/// What `restore` promises about the stored manifest and its chunks.
#[verifier::opaque]
pub open spec fn restore_ensures(
    s: Map<Seq<u8>, Seq<u8>>,
    name: Seq<u8>,
    r: Result<Seq<u8>, Error>,
) -> bool {
    let rk = crate::storage::root_key_spec(name);
    &&& (!s.dom().contains(rk) ==> r == Err::<Seq<u8>, Error>(Error::NotFound))
    &&& (r == Err::<Seq<u8>, Error>(Error::SerializationError) ==> s.dom().contains(rk) && !(
    exists|d: crate::blob::DocumentModel|
        d.wf() && s[rk] == #[trigger] crate::codec::doc_enc(d)))
    &&& (forall|d: crate::blob::DocumentModel|
        d.wf() && s.dom().contains(rk) && s[rk] == #[trigger] crate::codec::doc_enc(d)
            ==> fetch_ensures(s, d.current.hashes, r))
}

/// Restores the newest snapshot from the store: reads and decodes the
/// root manifest, then fetches and verifies every chunk of the current
/// blob in order.
pub fn restore(
    store: &crate::server_store::InMemoryStorage,
    root_name: &[u8],
) -> (r: Result<Vec<u8>, Error>)
    requires
        store.wf(),
    ensures
        restore_ensures(
            store@,
            root_name@,
            match r {
                Ok(v) => Ok(v@),
                Err(e) => Err(e),
            },
        ),
{
    proof {
        reveal(restore_ensures);
    }
    let rk = crate::storage::root_key(root_name);
    let bytes = match store.get(rk.as_slice()) {
        Some(b) => b,
        None => {
            return Err(Error::NotFound);
        },
    };
    let doc = match crate::codec::decode_document(bytes.as_slice()) {
        Some(d) => d,
        None => {
            proof {
                assert forall|d: crate::blob::DocumentModel|
                    !(d.wf() && store@[rk@] == crate::codec::doc_enc(d)) by {
                    if d.wf() && bytes@ == crate::codec::doc_enc(d) {
                        assert(false);
                    }
                }
            }
            return Err(Error::SerializationError);
        },
    };
    let r = fetch_blob(store, doc.current().chunk_hashes());
    proof {
        assert forall|d: crate::blob::DocumentModel|
            d.wf() && store@.dom().contains(rk@) && store@[rk@] == #[trigger] crate::codec::doc_enc(
                d,
            ) implies d == doc@ by {
            assert(bytes@ == crate::codec::doc_enc(d));
        }
    }
    r
}

/// What `restore_version` promises: version `k` (0 = oldest retained) is
/// reconstructed through the delta history, then fetched like `restore`.
#[verifier::opaque]
pub open spec fn restore_version_ensures(
    s: Map<Seq<u8>, Seq<u8>>,
    name: Seq<u8>,
    k: int,
    r: Result<Seq<u8>, Error>,
) -> bool {
    let rk = crate::storage::root_key_spec(name);
    &&& (!s.dom().contains(rk) ==> r == Err::<Seq<u8>, Error>(Error::NotFound))
    &&& (r == Err::<Seq<u8>, Error>(Error::SerializationError) ==> s.dom().contains(rk) && !(
    exists|d: crate::blob::DocumentModel|
        d.wf() && s[rk] == #[trigger] crate::codec::doc_enc(d)))
    &&& (forall|d: crate::blob::DocumentModel|
        d.wf() && s.dom().contains(rk) && s[rk] == #[trigger] crate::codec::doc_enc(d) ==> (if k
            < d.history.len() {
            fetch_ensures(
                s,
                crate::blob::version_spec(d.current, d.history, k).hashes,
                r,
            )
        } else {
            r == Err::<Seq<u8>, Error>(Error::NotFound)
        }))
}

/// Restores prior version `k` (0 = oldest retained) by reconstructing
/// its snapshot from the delta history before fetching its chunks.
pub fn restore_version(
    store: &crate::server_store::InMemoryStorage,
    root_name: &[u8],
    k: usize,
) -> (r: Result<Vec<u8>, Error>)
    requires
        store.wf(),
    ensures
        restore_version_ensures(
            store@,
            root_name@,
            k as int,
            match r {
                Ok(v) => Ok(v@),
                Err(e) => Err(e),
            },
        ),
{
    proof {
        reveal(restore_version_ensures);
    }
    let rk = crate::storage::root_key(root_name);
    let bytes = match store.get(rk.as_slice()) {
        Some(b) => b,
        None => {
            return Err(Error::NotFound);
        },
    };
    let doc = match crate::codec::decode_document(bytes.as_slice()) {
        Some(d) => d,
        None => {
            proof {
                assert forall|d: crate::blob::DocumentModel|
                    !(d.wf() && store@[rk@] == crate::codec::doc_enc(d)) by {
                    if d.wf() && bytes@ == crate::codec::doc_enc(d) {
                        assert(false);
                    }
                }
            }
            return Err(Error::SerializationError);
        },
    };
    proof {
        assert forall|d: crate::blob::DocumentModel|
            d.wf() && store@.dom().contains(rk@) && store@[rk@] == #[trigger] crate::codec::doc_enc(
                d,
            ) implies d == doc@ by {
            assert(bytes@ == crate::codec::doc_enc(d));
        }
    }
    let version = match doc.get_version(k) {
        Some(b) => b,
        None => {
            return Err(Error::NotFound);
        },
    };
    fetch_blob(store, version.chunk_hashes())
}


/// Whether some retained snapshot of the manifest references the hash:
/// the current blob or one of the history deltas names it.
pub open spec fn reachable(d: crate::blob::DocumentModel, h: Seq<u8>) -> bool {
    d.current.hashes.contains(h) || exists|i: int|
        0 <= i < d.history.len() && (#[trigger] d.history[i]).diffs.contains(h)
}

/// Whether a garbage collection against manifest `d` deletes the key: it
/// is a readable chunk key whose hash no retained snapshot references.
pub open spec fn gc_removes(d: crate::blob::DocumentModel, k: Seq<u8>) -> bool {
    exists|h: Seq<u8>|
        h.len() == 32 && #[trigger] crate::storage::b64_round_trips(h) && k
            == crate::storage::chunk_key_spec(h) && !reachable(d, h)
}

/// What `gc` promises: values are never changed, and exactly the
/// unreachable chunk objects leave the store.
pub open spec fn gc_ensures(
    s0: Map<Seq<u8>, Seq<u8>>,
    s1: Map<Seq<u8>, Seq<u8>>,
    name: Seq<u8>,
    r: Result<(), Error>,
) -> bool {
    let rk = crate::storage::root_key_spec(name);
    &&& (forall|k: Seq<u8>|
        #[trigger] s1.dom().contains(k) ==> s0.dom().contains(k) && s1[k] == s0[k])
    &&& match r {
        Ok(_) => {
            &&& s0.dom().contains(rk)
            &&& (forall|d: crate::blob::DocumentModel|
                d.wf() && s0[rk] == #[trigger] crate::codec::doc_enc(d) ==> forall|k: Seq<u8>|
                    #[trigger] s1.dom().contains(k) <==> (s0.dom().contains(k) && !gc_removes(
                        d,
                        k,
                    )))
        },
        Err(e) => {
            &&& s1 == s0
            &&& (e == Error::NotFound || e == Error::SerializationError)
            &&& (e == Error::NotFound ==> !s0.dom().contains(rk))
            &&& (e == Error::SerializationError ==> s0.dom().contains(rk) && !(exists|
                d: crate::blob::DocumentModel,
            |
                d.wf() && s0[rk] == #[trigger] crate::codec::doc_enc(d)))
        },
    }
}

/// Whether the manifest references the hash from any retained snapshot.
fn is_reachable(doc: &crate::blob::Document, h: &crate::hash_value::HashValue) -> (r: bool)
    ensures
        r == reachable(doc@, h@),
{
    if crate::hash_value::hashes_contain(&doc.current.chunk_hashes, h) {
        return true;
    }
    let mut i: usize = 0;
    while i < doc.history.len()
        invariant
            i <= doc.history@.len(),
            !doc@.current.hashes.contains(h@),
            forall|j: int| 0 <= j < i ==> !(#[trigger] doc@.history[j]).diffs.contains(h@),
        decreases doc.history@.len() - i,
    {
        if crate::hash_value::hashes_contain(&doc.history[i].diff_chunks, h) {
            proof {
                broadcast use crate::blob::lemma_prev_vec_deep_view;

                assert(doc@.history[i as int].diffs.contains(h@));
            }
            return true;
        }
        proof {
            broadcast use crate::blob::lemma_prev_vec_deep_view;

            assert(!doc@.history[i as int].diffs.contains(h@));
        }
        i = i + 1;
    }
    false
}

/// Removes every chunk object that no retained snapshot of the manifest
/// references. Keys that are not readable chunk keys are left alone.
#[verifier::loop_isolation(false)]
pub fn gc(
    store: &mut crate::server_store::InMemoryStorage,
    root_name: &[u8],
) -> (r: Result<(), Error>)
    requires
        old(store).wf(),
    ensures
        final(store).wf(),
        gc_ensures(old(store)@, final(store)@, root_name@, r),
{
    let ghost s0 = store@;
    let rk = crate::storage::root_key(root_name);
    let bytes = match store.get(rk.as_slice()) {
        Some(b) => b,
        None => {
            return Err(Error::NotFound);
        },
    };
    let doc = match crate::codec::decode_document(bytes.as_slice()) {
        Some(d) => d,
        None => {
            proof {
                assert forall|d: crate::blob::DocumentModel|
                    !(d.wf() && s0[rk@] == crate::codec::doc_enc(d)) by {
                    if d.wf() && bytes@ == crate::codec::doc_enc(d) {
                        assert(false);
                    }
                }
            }
            return Err(Error::SerializationError);
        },
    };
    let ghost dd = doc@;
    let keys = store.list_keys();
    let ghost entries0 = crate::server_store::entries_view(store.entries@);
    proof {
        crate::server_store::lemma_entries_map_dom(entries0);
    }
    let mut t: usize = 0;
    while t < keys.len()
        invariant
            t <= keys@.len(),
            store.wf(),
            forall|k: Seq<u8>|
                #[trigger] store@.dom().contains(k) <==> (s0.dom().contains(k) && !(gc_removes(
                    dd,
                    k,
                ) && exists|q: int| 0 <= q < t && #[trigger] keys@[q]@ == k)),
            forall|k: Seq<u8>|
                #[trigger] store@.dom().contains(k) ==> store@[k] == s0[k],
        decreases keys@.len() - t,
    {
        let ghost kv = keys@[t as int]@;
        let mut removable = false;
        match crate::storage::parse_chunk_key(keys[t].as_slice()) {
            Some(h) => {
                if !is_reachable(&doc, &h) {
                    removable = true;
                    proof {
                        assert(gc_removes(dd, kv));
                    }
                } else {
                    proof {
                        if gc_removes(dd, kv) {
                            let h2 = choose|h2: Seq<u8>|
                                h2.len() == 32 && #[trigger] crate::storage::b64_round_trips(h2)
                                    && kv == crate::storage::chunk_key_spec(h2) && !reachable(
                                    dd,
                                    h2,
                                );
                            assert(crate::storage::chunk_key_spec(h2).skip(1)
                                =~= crate::storage::b64url_of(h2));
                            assert(crate::storage::chunk_key_spec(h@).skip(1)
                                =~= crate::storage::b64url_of(h@));
                            assert(crate::storage::b64url_of(h2) == crate::storage::b64url_of(h@));
                            assert(h2 == h@);
                            assert(false);
                        }
                    }
                }
            },
            None => {
                proof {
                    if gc_removes(dd, kv) {
                        let h2 = choose|h2: Seq<u8>|
                            h2.len() == 32 && #[trigger] crate::storage::b64_round_trips(h2) && kv
                                == crate::storage::chunk_key_spec(h2) && !reachable(dd, h2);
                        assert(false);
                    }
                }
            },
        }
        if removable {
            store.remove(keys[t].as_slice());
        }
        proof {
            assert forall|k: Seq<u8>|
                #[trigger] store@.dom().contains(k) <==> (s0.dom().contains(k) && !(gc_removes(
                    dd,
                    k,
                ) && exists|q: int| 0 <= q < t + 1 && #[trigger] keys@[q]@ == k)) by {
                if k != kv {
                    if gc_removes(dd, k) && (exists|q: int|
                        0 <= q < t + 1 && #[trigger] keys@[q]@ == k) {
                        let q = choose|q: int| 0 <= q < t + 1 && #[trigger] keys@[q]@ == k;
                        assert(q < t);
                    }
                }
            }
        }
        t = t + 1;
    }
    proof {
        assert forall|d: crate::blob::DocumentModel|
            d.wf() && s0[rk@] == #[trigger] crate::codec::doc_enc(d) implies forall|k: Seq<u8>|
            #[trigger] store@.dom().contains(k) <==> (s0.dom().contains(k) && !gc_removes(
                d,
                k,
            )) by {
            assert(d == dd);
            assert forall|k: Seq<u8>|
                #[trigger] store@.dom().contains(k) <==> (s0.dom().contains(k) && !gc_removes(
                    dd,
                    k,
                )) by {
                if s0.dom().contains(k) && gc_removes(dd, k) {
                    let q = choose|q: int|
                        0 <= q < entries0.len() && (#[trigger] entries0[q]).0 == k;
                    assert(keys@[q]@ == k);
                }
            }
        }
    }
    Ok(())
}


/// Whether every size the manifest reports fits a 64-bit byte count.
pub open spec fn sizes_fit(d: crate::blob::DocumentModel) -> bool {
    &&& d.current.hashes.len() * CHUNK_SIZE <= u64::MAX
    &&& forall|i: int|
        0 <= i < d.history.len() ==> (#[trigger] d.history[i]).diffs.len() * CHUNK_SIZE
            <= u64::MAX
}

/// What `info` promises of the summary it reports.
pub open spec fn info_ensures(
    s: Map<Seq<u8>, Seq<u8>>,
    name: Seq<u8>,
    r: Result<(u64, i64, Seq<(i64, u64)>), Error>,
) -> bool {
    let rk = crate::storage::root_key_spec(name);
    &&& (!s.dom().contains(rk) ==> r == Err::<(u64, i64, Seq<(i64, u64)>), Error>(Error::NotFound))
    &&& (r == Err::<(u64, i64, Seq<(i64, u64)>), Error>(Error::SerializationError)
        ==> s.dom().contains(rk))
    &&& (forall|d: crate::blob::DocumentModel|
        d.wf() && s.dom().contains(rk) && s[rk] == #[trigger] crate::codec::doc_enc(d) ==> (if
            sizes_fit(d) {
            match r {
                Ok(v) => {
                    &&& v.0 as int == d.current.hashes.len() * CHUNK_SIZE
                    &&& v.1 as int == d.current.timestamp
                    &&& v.2.len() == d.history.len()
                    &&& (forall|i: int|
                        0 <= i < v.2.len() ==> (#[trigger] v.2[i]).0 as int == d.history[
                            d.history.len() - 1 - i
                        ].timestamp && v.2[i].1 as int == d.history[
                            d.history.len() - 1 - i
                        ].diffs.len() * CHUNK_SIZE)
                },
                Err(_) => false,
            }
        } else {
            r == Err::<(u64, i64, Seq<(i64, u64)>), Error>(Error::SerializationError)
        }))
}

/// Summarizes the stored manifest: the current snapshot's logical size
/// and timestamp, and for each retained prior version, newest first, its
/// timestamp and the bytes it uniquely retains.
#[verifier::loop_isolation(false)]
pub fn info(
    store: &crate::server_store::InMemoryStorage,
    root_name: &[u8],
) -> (r: Result<(u64, i64, Vec<(i64, u64)>), Error>)
    requires
        store.wf(),
    ensures
        info_ensures(
            store@,
            root_name@,
            match r {
                Ok(v) => Ok((v.0, v.1, v.2@)),
                Err(e) => Err(e),
            },
        ),
{
    let rk = crate::storage::root_key(root_name);
    let bytes = match store.get(rk.as_slice()) {
        Some(b) => b,
        None => {
            return Err(Error::NotFound);
        },
    };
    let doc = match crate::codec::decode_document(bytes.as_slice()) {
        Some(d) => d,
        None => {
            return Err(Error::SerializationError);
        },
    };
    proof {
        assert forall|d: crate::blob::DocumentModel|
            d.wf() && store@.dom().contains(rk@) && store@[rk@]
                == #[trigger] crate::codec::doc_enc(d) implies d == doc@ by {
            assert(bytes@ == crate::codec::doc_enc(d));
        }
    }
    let cap: u64 = u64::MAX / (CHUNK_SIZE as u64);
    if doc.current.chunk_hashes.len() as u64 > cap {
        proof {
            assert((doc@.current.hashes.len() as u64) as int * CHUNK_SIZE > u64::MAX)
                by (nonlinear_arith)
                requires
                    doc@.current.hashes.len() as u64 > u64::MAX / (CHUNK_SIZE as u64),
                    CHUNK_SIZE >= 1,
            ;
        }
        return Err(Error::SerializationError);
    }
    proof {
        assert(doc@.current.hashes.len() * CHUNK_SIZE <= u64::MAX) by (nonlinear_arith)
            requires
                doc@.current.hashes.len() <= u64::MAX / (CHUNK_SIZE as u64),
                CHUNK_SIZE >= 1,
        ;
    }
    let size = doc.current.size();
    let ts = doc.current.timestamp();
    let mut versions: Vec<(i64, u64)> = Vec::new();
    let mut j: usize = doc.history.len();
    while j > 0
        invariant
            j <= doc.history@.len(),
            versions@.len() == doc.history@.len() - j,
            forall|q: int|
                j <= q < doc.history@.len() ==> (#[trigger] doc@.history[q]).diffs.len()
                    * CHUNK_SIZE <= u64::MAX,
            forall|i: int|
                0 <= i < versions@.len() ==> (#[trigger] versions@[i]).0 as int == doc@.history[
                    doc@.history.len() - 1 - i
                ].timestamp && versions@[i].1 as int == doc@.history[
                    doc@.history.len() - 1 - i
                ].diffs.len() * CHUNK_SIZE,
        decreases j,
    {
        j = j - 1;
        if doc.history[j].diff_chunks.len() as u64 > cap {
            proof {
                broadcast use crate::blob::lemma_prev_vec_deep_view;

                assert((doc@.history[j as int].diffs.len() as u64) as int * CHUNK_SIZE > u64::MAX)
                    by (nonlinear_arith)
                    requires
                        doc@.history[j as int].diffs.len() as u64 > u64::MAX / (
                        CHUNK_SIZE as u64),
                        CHUNK_SIZE >= 1,
                ;
            }
            return Err(Error::SerializationError);
        }
        proof {
            broadcast use crate::blob::lemma_prev_vec_deep_view;

            assert(doc@.history[j as int].diffs.len() * CHUNK_SIZE <= u64::MAX)
                by (nonlinear_arith)
                requires
                    doc@.history[j as int].diffs.len() <= u64::MAX / (CHUNK_SIZE as u64),
                    CHUNK_SIZE >= 1,
            ;
        }
        let entry = &doc.history[j];
        let retained = entry.retained_size();
        let entry_ts = entry.timestamp();
        versions.push((entry_ts, retained));
        proof {
            broadcast use crate::blob::lemma_prev_vec_deep_view;
        }
    }
    proof {
        assert(sizes_fit(doc@));
    }
    Ok((size, ts, versions))
}


/// No two distinct chunks of the data collide on their content hash.
pub open spec fn chunks_collision_free(data: Seq<u8>) -> bool {
    forall|i: int, j: int|
        0 <= i < chunk_count(data.len()) && 0 <= j < chunk_count(data.len())
            && #[trigger] crate::hash_value::blake3_of(chunk_at(data, i))
            == #[trigger] crate::hash_value::blake3_of(chunk_at(data, j)) ==> chunk_at(data, i)
            == chunk_at(data, j)
}

/// A freshly-backed-up manifest is well formed.
pub proof fn lemma_fresh_doc_wf(data: Seq<u8>, ts: int)
    requires
        data.len() <= usize::MAX,
        i64::MIN <= ts <= i64::MAX,
    ensures
        fresh_doc(data, ts).wf(),
{
    let c = CHUNK_SIZE as nat;
    let len = data.len();
    if len % c == 0 {
        assert(len / c <= len) by (nonlinear_arith)
            requires
                c >= 1,
        ;
    } else {
        assert(len / c + 1 <= len) by (nonlinear_arith)
            requires
                c >= 2,
                len % c != 0,
        ;
    }
    assert(chunk_count(len) <= usize::MAX);
}

#[verifier::spinoff_prover]
proof fn lemma_concat_is_padded(s: Map<Seq<u8>, Seq<u8>>, data: Seq<u8>, i: int)
    requires
        0 <= i <= chunk_count(data.len()),
        forall|j: int|
            0 <= j < chunk_count(data.len()) ==> s[crate::storage::chunk_key_spec(
                #[trigger] chunk_hashes_of(data)[j],
            )] == chunk_at(data, j),
    ensures
        concat_chunks(s, chunk_hashes_of(data).skip(i)) == padded(data).subrange(
            i * CHUNK_SIZE,
            chunk_count(data.len()) * CHUNK_SIZE,
        ),
    decreases chunk_count(data.len()) - i,
{
    reveal(chunk_at);
    let hs = chunk_hashes_of(data);
    let n = chunk_count(data.len()) as int;
    lemma_chunk_bounds(data.len());
    assert(padded(data).len() == n * CHUNK_SIZE);
    assert(i * CHUNK_SIZE >= 0 && i * CHUNK_SIZE <= n * CHUNK_SIZE && (i + 1) * CHUNK_SIZE == i
        * CHUNK_SIZE + CHUNK_SIZE) by (nonlinear_arith)
        requires
            0 <= i <= n,
            CHUNK_SIZE >= 1,
    ;
    if i == n {
        assert(hs.skip(i) =~= Seq::<Seq<u8>>::empty());
        assert(concat_chunks(s, hs.skip(i)) == Seq::<u8>::empty());
        assert(padded(data).subrange(i * CHUNK_SIZE, n * CHUNK_SIZE) =~= Seq::<u8>::empty());
    } else {
        lemma_concat_is_padded(s, data, i + 1);
        assert(hs.skip(i)[0] == hs[i]);
        assert(hs.skip(i).skip(1) =~= hs.skip(i + 1));
        assert(concat_chunks(s, hs.skip(i)) == s[crate::storage::chunk_key_spec(hs[i])]
            + concat_chunks(s, hs.skip(i + 1)));
        assert(s[crate::storage::chunk_key_spec(hs[i])] == chunk_at(data, i));
        assert(concat_chunks(s, hs.skip(i)) =~= padded(data).subrange(
            i * CHUNK_SIZE,
            n * CHUNK_SIZE,
        ));
    }
}

#[verifier::spinoff_prover]
#[verifier::rlimit(100)]
proof fn lemma_backup_chunk_values(
    s0: Map<Seq<u8>, Seq<u8>>,
    s1: Map<Seq<u8>, Seq<u8>>,
    name: Seq<u8>,
    data: Seq<u8>,
    ts: int,
    rb: Result<u64, Error>,
)
    requires
        s0 == Map::<Seq<u8>, Seq<u8>>::empty(),
        backup_ensures(s0, s1, name, data, ts, rb),
        rb is Ok,
        chunks_collision_free(data),
    ensures
        s1.dom().contains(crate::storage::root_key_spec(name)),
        s1[crate::storage::root_key_spec(name)] == crate::codec::doc_enc(fresh_doc(data, ts)),
        forall|j: int|
            0 <= j < chunk_count(data.len()) ==> s1.dom().contains(
                crate::storage::chunk_key_spec(#[trigger] chunk_hashes_of(data)[j]),
            ) && s1[crate::storage::chunk_key_spec(chunk_hashes_of(data)[j])] == chunk_at(data, j),
{
    reveal(backup_ensures);
    let rk = crate::storage::root_key_spec(name);
    let hs = chunk_hashes_of(data);
    assert(!s0.dom().contains(rk));
    assert forall|j: int|
        0 <= j < hs.len() implies s1.dom().contains(
        crate::storage::chunk_key_spec(#[trigger] hs[j]),
    ) && s1[crate::storage::chunk_key_spec(hs[j])] == chunk_at(data, j) by {
        assert(!s0.dom().contains(crate::storage::chunk_key_spec(hs[j])));
        let j2 = choose|j2: int|
            0 <= j2 < hs.len() && hs[j2] == hs[j] && s1[crate::storage::chunk_key_spec(hs[j])]
                == chunk_at(data, j2);
        assert(crate::hash_value::blake3_of(chunk_at(data, j2)) == crate::hash_value::blake3_of(
            chunk_at(data, j),
        ));
        assert(chunk_at(data, j2) == chunk_at(data, j));
    }
}

#[verifier::spinoff_prover]
#[verifier::rlimit(100)]
proof fn lemma_fetch_gives_padded(
    s: Map<Seq<u8>, Seq<u8>>,
    data: Seq<u8>,
    rr: Result<Seq<u8>, Error>,
)
    requires
        forall|j: int|
            0 <= j < chunk_count(data.len()) ==> s.dom().contains(
                crate::storage::chunk_key_spec(#[trigger] chunk_hashes_of(data)[j]),
            ) && s[crate::storage::chunk_key_spec(chunk_hashes_of(data)[j])] == chunk_at(data, j),
        fetch_ensures(s, chunk_hashes_of(data), rr),
    ensures
        rr == Ok::<Seq<u8>, Error>(padded(data)),
{
    let hs = chunk_hashes_of(data);
    assert(chunks_all_good(s, hs)) by {
        assert forall|j: int|
            0 <= j < hs.len() implies s.dom().contains(
            crate::storage::chunk_key_spec(#[trigger] hs[j]),
        ) && crate::hash_value::blake3_of(s[crate::storage::chunk_key_spec(hs[j])]) == hs[j] by {
            assert(s[crate::storage::chunk_key_spec(hs[j])] == chunk_at(data, j));
        }
    }
    lemma_concat_is_padded(s, data, 0);
    assert(hs.skip(0) =~= hs);
    lemma_chunk_bounds(data.len());
    assert(padded(data).subrange(0, chunk_count(data.len()) * CHUNK_SIZE) =~= padded(data));
}

/// Round trip: after backing a byte string up into an empty store, a
/// restore succeeds and returns exactly the data zero-padded to the next
/// chunk boundary, provided no two distinct chunks collide on their hash.
#[verifier::spinoff_prover]
#[verifier::rlimit(100)]
pub proof fn lemma_backup_restore_round_trip(
    s0: Map<Seq<u8>, Seq<u8>>,
    s1: Map<Seq<u8>, Seq<u8>>,
    name: Seq<u8>,
    data: Seq<u8>,
    ts: int,
    rb: Result<u64, Error>,
    rr: Result<Seq<u8>, Error>,
)
    requires
        s0 == Map::<Seq<u8>, Seq<u8>>::empty(),
        data.len() <= usize::MAX,
        i64::MIN <= ts <= i64::MAX,
        backup_ensures(s0, s1, name, data, ts, rb),
        rb is Ok,
        restore_ensures(s1, name, rr),
        chunks_collision_free(data),
    ensures
        rr == Ok::<Seq<u8>, Error>(padded(data)),
{
    reveal(restore_ensures);
    reveal(backup_ensures);
    let rk = crate::storage::root_key_spec(name);
    let d1 = fresh_doc(data, ts);
    lemma_fresh_doc_wf(data, ts);
    lemma_backup_chunk_values(s0, s1, name, data, ts, rb);
    assert(fetch_ensures(s1, d1.current.hashes, rr));
    lemma_fetch_gives_padded(s1, data, rr);
}

/// Repeated backup of unchanged data: the manifest's current snapshot
/// keeps the same hash sequence and the history grows by exactly one
/// reverse delta.
#[verifier::spinoff_prover]
pub proof fn lemma_idempotent_publish(
    s0: Map<Seq<u8>, Seq<u8>>,
    s1: Map<Seq<u8>, Seq<u8>>,
    s2: Map<Seq<u8>, Seq<u8>>,
    name: Seq<u8>,
    data: Seq<u8>,
    ts1: int,
    ts2: int,
    rb1: Result<u64, Error>,
    rb2: Result<u64, Error>,
)
    requires
        !s0.dom().contains(crate::storage::root_key_spec(name)),
        data.len() <= usize::MAX,
        i64::MIN <= ts1 <= i64::MAX,
        i64::MIN <= ts2 <= i64::MAX,
        backup_ensures(s0, s1, name, data, ts1, rb1),
        rb1 is Ok,
        backup_ensures(s1, s2, name, data, ts2, rb2),
        rb2 is Ok,
    ensures
        ({
            let d1 = fresh_doc(data, ts1);
            let d2 = updated_doc(d1, data, ts2);
            &&& s1[crate::storage::root_key_spec(name)] == crate::codec::doc_enc(d1)
            &&& s2[crate::storage::root_key_spec(name)] == crate::codec::doc_enc(d2)
            &&& d2.current.hashes == d1.current.hashes
            &&& d2.history.len() == d1.history.len() + 1
        }),
{
    reveal(backup_ensures);
    let rk = crate::storage::root_key_spec(name);
    let d1 = fresh_doc(data, ts1);
    lemma_fresh_doc_wf(data, ts1);
    assert(s1[rk] == crate::codec::doc_enc(d1));
    assert(s1.dom().contains(rk));
    assert(s2[rk] == crate::codec::doc_enc(updated_doc(d1, data, ts2)));
}

#[verifier::spinoff_prover]
#[verifier::rlimit(100)]
proof fn lemma_second_backup_keeps_chunks(
    s1: Map<Seq<u8>, Seq<u8>>,
    s2: Map<Seq<u8>, Seq<u8>>,
    name: Seq<u8>,
    data1: Seq<u8>,
    data2: Seq<u8>,
    ts2: int,
    rb2: Result<u64, Error>,
)
    requires
        backup_ensures(s1, s2, name, data2, ts2, rb2),
        rb2 is Ok,
        forall|j: int|
            0 <= j < chunk_count(data1.len()) ==> crate::storage::b64_round_trips(
                #[trigger] chunk_hashes_of(data1)[j],
            ),
        forall|j: int|
            0 <= j < chunk_count(data1.len()) ==> s1.dom().contains(
                crate::storage::chunk_key_spec(#[trigger] chunk_hashes_of(data1)[j]),
            ) && s1[crate::storage::chunk_key_spec(chunk_hashes_of(data1)[j])] == chunk_at(
                data1,
                j,
            ),
    ensures
        forall|j: int|
            0 <= j < chunk_count(data1.len()) ==> s2.dom().contains(
                crate::storage::chunk_key_spec(#[trigger] chunk_hashes_of(data1)[j]),
            ) && s2[crate::storage::chunk_key_spec(chunk_hashes_of(data1)[j])] == chunk_at(
                data1,
                j,
            ),
{
    reveal(backup_ensures);
    let hs1 = chunk_hashes_of(data1);
    let hs2 = chunk_hashes_of(data2);
    assert forall|j: int|
        0 <= j < hs1.len() implies s2.dom().contains(
        crate::storage::chunk_key_spec(#[trigger] hs1[j]),
    ) && s2[crate::storage::chunk_key_spec(hs1[j])] == chunk_at(data1, j) by {
        let ck = crate::storage::chunk_key_spec(hs1[j]);
        lemma_keys_disjoint(name, hs1[j]);
        if exists|q: int| 0 <= q < hs2.len() && ck == crate::storage::chunk_key_spec(
            #[trigger] hs2[q],
        ) {
            let q = choose|q: int|
                0 <= q < hs2.len() && ck == crate::storage::chunk_key_spec(#[trigger] hs2[q]);
            lemma_chunk_key_injective(hs2[q], hs1[j]);
            assert(s1.dom().contains(crate::storage::chunk_key_spec(hs2[q])));
            assert(s2[crate::storage::chunk_key_spec(hs2[q])] == s1[crate::storage::chunk_key_spec(
                hs2[q],
            )]);
        } else {
            assert(s2[ck] == s1[ck]);
        }
    }
}

/// Incremental backup: after two backups, the second manifest's version 0
/// reconstructs the first data's hash sequence, and those chunks are
/// still stored and verify, so the first data can be rebuilt bit for bit.
#[verifier::spinoff_prover]
#[verifier::rlimit(100)]
pub proof fn lemma_incremental_backup(
    s0: Map<Seq<u8>, Seq<u8>>,
    s1: Map<Seq<u8>, Seq<u8>>,
    s2: Map<Seq<u8>, Seq<u8>>,
    name: Seq<u8>,
    data1: Seq<u8>,
    data2: Seq<u8>,
    ts1: int,
    ts2: int,
    rb1: Result<u64, Error>,
    rb2: Result<u64, Error>,
)
    requires
        s0 == Map::<Seq<u8>, Seq<u8>>::empty(),
        data1.len() <= usize::MAX,
        data2.len() <= usize::MAX,
        i64::MIN <= ts1 <= i64::MAX,
        i64::MIN <= ts2 <= i64::MAX,
        backup_ensures(s0, s1, name, data1, ts1, rb1),
        rb1 is Ok,
        backup_ensures(s1, s2, name, data2, ts2, rb2),
        rb2 is Ok,
        chunks_collision_free(data1),
        forall|i: int, j: int|
            0 <= i < chunk_count(data1.len()) && 0 <= j < chunk_count(data2.len())
                && #[trigger] crate::hash_value::blake3_of(chunk_at(data1, i))
                == #[trigger] crate::hash_value::blake3_of(chunk_at(data2, j)) ==> chunk_at(
                data1,
                i,
            ) == chunk_at(data2, j),
    ensures
        ({
            let d2 = updated_doc(fresh_doc(data1, ts1), data2, ts2);
            &&& s2[crate::storage::root_key_spec(name)] == crate::codec::doc_enc(d2)
            &&& crate::blob::version_spec(d2.current, d2.history, 0).hashes == chunk_hashes_of(
                data1,
            )
            &&& chunks_all_good(s2, chunk_hashes_of(data1))
            &&& concat_chunks(s2, chunk_hashes_of(data1)) == padded(data1)
        }),
{
    let rk = crate::storage::root_key_spec(name);
    let hs1 = chunk_hashes_of(data1);
    let hs2 = chunk_hashes_of(data2);
    let d1 = fresh_doc(data1, ts1);
    lemma_fresh_doc_wf(data1, ts1);
    lemma_root_of_first_backup(s0, s1, name, data1, ts1, rb1);
    lemma_second_backup_root(s1, s2, name, data2, ts2, rb2, d1);
    let d2 = updated_doc(d1, data2, ts2);
    assert(d2.history.len() == 1);
    crate::blob::lemma_delta_reconstruct(hs2, hs1);
    assert(crate::blob::version_spec(d2.current, d2.history, 0).hashes == chunk_hashes_of(data1))
        by {
        assert(crate::blob::version_spec(d2.current, d2.history, 1) == d2.current);
        assert(d2.history[0].runs == crate::blob::diff_runs(hs2, hs1));
        assert(d2.history[0].diffs == crate::blob::diff_diffs(hs2, hs1));
    }
    lemma_backup_dom_shape(s0, s1, name, data1, ts1, rb1);
    lemma_backup_chunk_values(s0, s1, name, data1, ts1, rb1);
    lemma_second_backup_keeps_chunks(s1, s2, name, data1, data2, ts2, rb2);
    assert(chunks_all_good(s2, hs1)) by {
        assert forall|j: int|
            0 <= j < hs1.len() implies s2.dom().contains(
            crate::storage::chunk_key_spec(#[trigger] hs1[j]),
        ) && crate::hash_value::blake3_of(s2[crate::storage::chunk_key_spec(hs1[j])])
            == hs1[j] by {
            assert(s2[crate::storage::chunk_key_spec(hs1[j])] == chunk_at(data1, j));
        }
    }
    lemma_concat_is_padded(s2, data1, 0);
    assert(hs1.skip(0) =~= hs1);
    lemma_chunk_bounds(data1.len());
    assert(padded(data1).subrange(0, chunk_count(data1.len()) * CHUNK_SIZE) =~= padded(data1));
}

/// Corruption detection: if any stored chunk's bytes are changed so that
/// they no longer hash to their key, a restore fails with a hash
/// mismatch.
#[verifier::spinoff_prover]
pub proof fn lemma_corruption_detected(
    s0: Map<Seq<u8>, Seq<u8>>,
    s1: Map<Seq<u8>, Seq<u8>>,
    s_bad: Map<Seq<u8>, Seq<u8>>,
    name: Seq<u8>,
    data: Seq<u8>,
    ts: int,
    rb: Result<u64, Error>,
    i: int,
    bad: Seq<u8>,
    rr: Result<Seq<u8>, Error>,
)
    requires
        s0 == Map::<Seq<u8>, Seq<u8>>::empty(),
        data.len() <= usize::MAX,
        i64::MIN <= ts <= i64::MAX,
        backup_ensures(s0, s1, name, data, ts, rb),
        rb is Ok,
        0 <= i < chunk_count(data.len()),
        s_bad == s1.insert(crate::storage::chunk_key_spec(chunk_hashes_of(data)[i]), bad),
        crate::hash_value::blake3_of(bad) != chunk_hashes_of(data)[i],
        restore_ensures(s_bad, name, rr),
    ensures
        rr == Err::<Seq<u8>, Error>(Error::HashMismatch),
{
    reveal(restore_ensures);
    reveal(backup_ensures);
    let rk = crate::storage::root_key_spec(name);
    let hs = chunk_hashes_of(data);
    let d1 = fresh_doc(data, ts);
    lemma_fresh_doc_wf(data, ts);
    lemma_keys_disjoint(name, hs[i]);
    assert(s_bad[rk] == s1[rk]);
    assert(s_bad.dom().contains(rk));
    assert(s_bad[rk] == crate::codec::doc_enc(d1));
    assert(fetch_ensures(s_bad, d1.current.hashes, rr));
    assert(!chunks_all_good(s_bad, hs)) by {
        assert(s_bad[crate::storage::chunk_key_spec(hs[i])] == bad);
        assert(crate::hash_value::blake3_of(s_bad[crate::storage::chunk_key_spec(hs[i])])
            != hs[i]);
    }
    assert(rr != Err::<Seq<u8>, Error>(Error::NotFound)) by {
        if rr == Err::<Seq<u8>, Error>(Error::NotFound) {
            let j = choose|j: int|
                0 <= j < hs.len() && !s_bad.dom().contains(
                    crate::storage::chunk_key_spec(#[trigger] hs[j]),
                );
            assert(s1.dom().contains(crate::storage::chunk_key_spec(hs[j])));
            assert(s_bad.dom().contains(crate::storage::chunk_key_spec(hs[j])));
        }
    }
}

/// Deduplication: backing identical data up twice into an empty store
/// leaves exactly one chunk object per distinct chunk plus the root, and
/// the second backup uploads nothing.
#[verifier::spinoff_prover]
#[verifier::rlimit(100)]
pub proof fn lemma_dedup(
    s0: Map<Seq<u8>, Seq<u8>>,
    s1: Map<Seq<u8>, Seq<u8>>,
    s2: Map<Seq<u8>, Seq<u8>>,
    name: Seq<u8>,
    data: Seq<u8>,
    ts1: int,
    ts2: int,
    rb1: Result<u64, Error>,
    rb2: Result<u64, Error>,
)
    requires
        s0 == Map::<Seq<u8>, Seq<u8>>::empty(),
        backup_ensures(s0, s1, name, data, ts1, rb1),
        rb1 is Ok,
        backup_ensures(s1, s2, name, data, ts2, rb2),
        rb2 is Ok,
        forall|i: int, j: int|
            0 <= i < j < chunk_count(data.len()) ==> #[trigger] chunk_hashes_of(data)[i]
                != #[trigger] chunk_hashes_of(data)[j],
    ensures
        rb2 == Ok::<u64, Error>(0u64),
        s2.dom().finite(),
        s2.dom().len() == 1 + chunk_count(data.len()),
{
    reveal(backup_ensures);
    let rk = crate::storage::root_key_spec(name);
    let hs = chunk_hashes_of(data);
    let n = hs.len() as int;
    assert forall|j: int|
        0 <= j < hs.len() implies s1.dom().contains(
        crate::storage::chunk_key_spec(#[trigger] hs[j]),
    ) by {
        assert(s1.dom().contains(crate::storage::chunk_key_spec(hs[j])) <==> (s0.dom().contains(
            crate::storage::chunk_key_spec(hs[j]),
        ) || crate::storage::chunk_key_spec(hs[j]) == rk || exists|q: int|
            0 <= q < hs.len() && crate::storage::chunk_key_spec(hs[j])
                == crate::storage::chunk_key_spec(#[trigger] hs[q])));
    }
    assert(new_hash_count(hs, s1) == 0) by {
        lemma_all_known_count(hs, s1, n);
        assert(hs.take(n) =~= hs);
    }
    assert(rb2 == Ok::<u64, Error>(0u64));
    lemma_key_set_card(name, hs, n);
    let full = key_set(name, hs, n);
    assert forall|k: Seq<u8>| #[trigger] s2.dom().contains(k) implies full.contains(k) by {
        if k != rk {
            if s1.dom().contains(k) {
                let j = choose|j: int|
                    0 <= j < hs.len() && k == crate::storage::chunk_key_spec(#[trigger] hs[j]);
                assert(full.contains(k));
            } else {
                let j = choose|j: int|
                    0 <= j < hs.len() && k == crate::storage::chunk_key_spec(#[trigger] hs[j]);
                assert(full.contains(k));
            }
        }
    }
    assert forall|k: Seq<u8>| #[trigger] full.contains(k) implies s2.dom().contains(k) by {
        if k != rk {
            let j = choose|j: int|
                0 <= j < n && k == crate::storage::chunk_key_spec(#[trigger] hs[j]);
            assert(s2.dom().contains(k));
        }
    }
    assert(s2.dom() =~= full);
}

/// The root key together with the chunk keys of the first `m` hashes.
pub open spec fn key_set(name: Seq<u8>, hs: Seq<Seq<u8>>, m: int) -> Set<Seq<u8>> {
    Set::new(
        |k: Seq<u8>|
            k == crate::storage::root_key_spec(name) || exists|j: int|
                0 <= j < m && k == crate::storage::chunk_key_spec(#[trigger] hs[j]),
    )
}

proof fn lemma_all_known_count(hs: Seq<Seq<u8>>, s: Map<Seq<u8>, Seq<u8>>, m: int)
    requires
        0 <= m <= hs.len(),
        forall|j: int|
            0 <= j < hs.len() ==> s.dom().contains(crate::storage::chunk_key_spec(#[trigger] hs[j])),
    ensures
        new_hash_count(hs.take(m), s) == 0,
    decreases m,
{
    if m == 0 {
        assert(hs.take(0) =~= Seq::<Seq<u8>>::empty());
    } else {
        lemma_all_known_count(hs, s, m - 1);
        assert(hs.take(m).drop_last() =~= hs.take(m - 1));
        assert(hs.take(m).last() == hs[m - 1]);
        assert(s.dom().contains(crate::storage::chunk_key_spec(hs.take(m).last())));
    }
}

proof fn lemma_key_set_card(name: Seq<u8>, hs: Seq<Seq<u8>>, m: int)
    requires
        0 <= m <= hs.len(),
        forall|i: int, j: int| 0 <= i < j < hs.len() ==> #[trigger] hs[i] != #[trigger] hs[j],
        forall|j: int| 0 <= j < hs.len() ==> crate::storage::b64_round_trips(#[trigger] hs[j]),
    ensures
        key_set(name, hs, m).finite(),
        key_set(name, hs, m).len() == m + 1,
    decreases m,
{
    let rk = crate::storage::root_key_spec(name);
    if m == 0 {
        assert(key_set(name, hs, 0) =~= Set::<Seq<u8>>::empty().insert(rk));
    } else {
        lemma_key_set_card(name, hs, m - 1);
        let ck = crate::storage::chunk_key_spec(hs[m - 1]);
        assert(!key_set(name, hs, m - 1).contains(ck)) by {
            lemma_keys_disjoint(name, hs[m - 1]);
            if exists|j: int| 0 <= j < m - 1 && ck == crate::storage::chunk_key_spec(#[trigger] hs[j]) {
                let j = choose|j: int|
                    0 <= j < m - 1 && ck == crate::storage::chunk_key_spec(#[trigger] hs[j]);
                lemma_chunk_key_injective(hs[j], hs[m - 1]);
            }
        }
        assert(key_set(name, hs, m) =~= key_set(name, hs, m - 1).insert(ck)) by {
            assert forall|k: Seq<u8>| key_set(name, hs, m).contains(k) implies key_set(
                name,
                hs,
                m - 1,
            ).insert(ck).contains(k) by {
                if k != rk && k != ck {
                    let j = choose|j: int|
                        0 <= j < m && k == crate::storage::chunk_key_spec(#[trigger] hs[j]);
                    assert(j < m - 1);
                }
            }
        }
    }
}


proof fn lemma_diff_rec_wf(new: Seq<Seq<u8>>, prev: Seq<Seq<u8>>, i: int, run: int)
    requires
        0 <= i <= prev.len(),
        0 <= run,
        run + prev.len() - i <= usize::MAX,
        forall|k: int| 0 <= k < prev.len() ==> (#[trigger] prev[k]).len() == 32,
    ensures
        ({
            let rd = crate::blob::diff_rec(new, prev, i, run);
            &&& rd.1.len() <= rd.0.len() <= rd.1.len() + 1
            &&& rd.0.len() <= prev.len() - i + 1
            &&& forall|k: int|
                0 <= k < rd.0.len() ==> 0 <= #[trigger] rd.0[k] <= run + prev.len() - i
            &&& forall|k: int| 0 <= k < rd.1.len() ==> (#[trigger] rd.1[k]).len() == 32
        }),
    decreases prev.len() - i,
{
    let rd = crate::blob::diff_rec(new, prev, i, run);
    if i >= prev.len() {
    } else if i < new.len() && new[i] == prev[i] {
        lemma_diff_rec_wf(new, prev, i + 1, run + 1);
    } else {
        lemma_diff_rec_wf(new, prev, i + 1, 0);
        let rest = crate::blob::diff_rec(new, prev, i + 1, 0);
        assert(rd.0 == seq![run] + rest.0);
        assert(rd.1 == seq![prev[i]] + rest.1);
        assert forall|k: int| 0 <= k < rd.0.len() implies 0 <= #[trigger] rd.0[k] <= run
            + prev.len() - i by {
            if k == 0 {
                assert(rd.0[0] == run);
            } else {
                assert(rd.0[k] == rest.0[k - 1]);
            }
        }
        assert forall|k: int| 0 <= k < rd.1.len() implies (#[trigger] rd.1[k]).len() == 32 by {
            if k == 0 {
                assert(rd.1[0] == prev[i]);
            } else {
                assert(rd.1[k] == rest.1[k - 1]);
            }
        }
    }
}

/// The manifest a backup publishes over a well-formed prior manifest is
/// itself well formed.
pub proof fn lemma_updated_doc_wf(d: crate::blob::DocumentModel, data: Seq<u8>, ts: int)
    requires
        d.wf(),
        d.history.len() < usize::MAX,
        d.current.hashes.len() < usize::MAX,
        data.len() <= usize::MAX,
        i64::MIN <= ts <= i64::MAX,
    ensures
        updated_doc(d, data, ts).wf(),
{
    lemma_fresh_doc_wf(data, ts);
    let hs = chunk_hashes_of(data);
    lemma_diff_rec_wf(hs, d.current.hashes, 0, 0);
    let d2 = updated_doc(d, data, ts);
    let rd = crate::blob::diff_rec(hs, d.current.hashes, 0, 0);
    let entry = d2.history.last();
    assert(entry.runs == rd.0 && entry.diffs == rd.1);
    assert(entry.wf());
    assert forall|i: int| 0 <= i < d2.history.len() implies (#[trigger] d2.history[i]).wf() by {
        if i < d.history.len() {
            assert(d2.history[i] == d.history[i]);
        } else {
            assert(d2.history[i] == entry);
        }
    }
}

#[verifier::spinoff_prover]
#[verifier::rlimit(100)]
proof fn lemma_backup_dom_shape(
    s0: Map<Seq<u8>, Seq<u8>>,
    s1: Map<Seq<u8>, Seq<u8>>,
    name: Seq<u8>,
    data: Seq<u8>,
    ts: int,
    rb: Result<u64, Error>,
)
    requires
        s0 == Map::<Seq<u8>, Seq<u8>>::empty(),
        backup_ensures(s0, s1, name, data, ts, rb),
        rb is Ok,
    ensures
        forall|j: int|
            0 <= j < chunk_count(data.len()) ==> crate::storage::b64_round_trips(
                #[trigger] chunk_hashes_of(data)[j],
            ),
        forall|k: Seq<u8>|
            #[trigger] s1.dom().contains(k) ==> (k == crate::storage::root_key_spec(name) || exists|
                q: int,
            |
                0 <= q < chunk_count(data.len()) && k == crate::storage::chunk_key_spec(
                    #[trigger] chunk_hashes_of(data)[q],
                )),
{
    reveal(backup_ensures);
}

#[verifier::spinoff_prover]
#[verifier::rlimit(100)]
proof fn lemma_second_backup_current_chunks(
    s1: Map<Seq<u8>, Seq<u8>>,
    s2: Map<Seq<u8>, Seq<u8>>,
    name: Seq<u8>,
    data1: Seq<u8>,
    data2: Seq<u8>,
    ts2: int,
    rb2: Result<u64, Error>,
)
    requires
        backup_ensures(s1, s2, name, data2, ts2, rb2),
        rb2 is Ok,
        chunks_collision_free(data2),
        forall|j: int|
            0 <= j < chunk_count(data1.len()) ==> crate::storage::b64_round_trips(
                #[trigger] chunk_hashes_of(data1)[j],
            ),
        forall|k: Seq<u8>|
            #[trigger] s1.dom().contains(k) ==> (k == crate::storage::root_key_spec(name) || exists|
                q: int,
            |
                0 <= q < chunk_count(data1.len()) && k == crate::storage::chunk_key_spec(
                    #[trigger] chunk_hashes_of(data1)[q],
                )),
        forall|j: int|
            0 <= j < chunk_count(data1.len()) ==> s1.dom().contains(
                crate::storage::chunk_key_spec(#[trigger] chunk_hashes_of(data1)[j]),
            ) && s1[crate::storage::chunk_key_spec(chunk_hashes_of(data1)[j])] == chunk_at(
                data1,
                j,
            ),
        forall|i: int, j: int|
            0 <= i < chunk_count(data1.len()) && 0 <= j < chunk_count(data2.len())
                && #[trigger] crate::hash_value::blake3_of(chunk_at(data1, i))
                == #[trigger] crate::hash_value::blake3_of(chunk_at(data2, j)) ==> chunk_at(
                data1,
                i,
            ) == chunk_at(data2, j),
    ensures
        forall|j: int|
            0 <= j < chunk_count(data2.len()) ==> s2.dom().contains(
                crate::storage::chunk_key_spec(#[trigger] chunk_hashes_of(data2)[j]),
            ) && s2[crate::storage::chunk_key_spec(chunk_hashes_of(data2)[j])] == chunk_at(
                data2,
                j,
            ),
{
    reveal(backup_ensures);
    let rk = crate::storage::root_key_spec(name);
    let hs1 = chunk_hashes_of(data1);
    let hs2 = chunk_hashes_of(data2);
    assert forall|j: int|
        0 <= j < hs2.len() implies s2.dom().contains(
        crate::storage::chunk_key_spec(#[trigger] hs2[j]),
    ) && s2[crate::storage::chunk_key_spec(hs2[j])] == chunk_at(data2, j) by {
        let ck = crate::storage::chunk_key_spec(hs2[j]);
        if s1.dom().contains(ck) {
            assert(s2[ck] == s1[ck]);
            lemma_keys_disjoint(name, hs2[j]);
            let q = choose|q: int|
                0 <= q < hs1.len() && ck == crate::storage::chunk_key_spec(#[trigger] hs1[q]);
            lemma_chunk_key_injective(hs1[q], hs2[j]);
            assert(s1[ck] == chunk_at(data1, q));
            assert(crate::hash_value::blake3_of(chunk_at(data1, q))
                == crate::hash_value::blake3_of(chunk_at(data2, j)));
            assert(chunk_at(data1, q) == chunk_at(data2, j));
        } else {
            let j2 = choose|j2: int|
                0 <= j2 < hs2.len() && hs2[j2] == hs2[j] && s2[crate::storage::chunk_key_spec(
                    hs2[j],
                )] == chunk_at(data2, j2);
            assert(chunk_at(data2, j2) == chunk_at(data2, j));
        }
    }
}

#[verifier::spinoff_prover]
proof fn lemma_root_of_first_backup(
    s0: Map<Seq<u8>, Seq<u8>>,
    s1: Map<Seq<u8>, Seq<u8>>,
    name: Seq<u8>,
    data: Seq<u8>,
    ts: int,
    rb: Result<u64, Error>,
)
    requires
        s0 == Map::<Seq<u8>, Seq<u8>>::empty(),
        backup_ensures(s0, s1, name, data, ts, rb),
        rb is Ok,
    ensures
        s1.dom().contains(crate::storage::root_key_spec(name)),
        s1[crate::storage::root_key_spec(name)] == crate::codec::doc_enc(fresh_doc(data, ts)),
{
    reveal(backup_ensures);
}

#[verifier::spinoff_prover]
proof fn lemma_second_backup_root(
    s1: Map<Seq<u8>, Seq<u8>>,
    s2: Map<Seq<u8>, Seq<u8>>,
    name: Seq<u8>,
    data2: Seq<u8>,
    ts2: int,
    rb2: Result<u64, Error>,
    d: crate::blob::DocumentModel,
)
    requires
        backup_ensures(s1, s2, name, data2, ts2, rb2),
        rb2 is Ok,
        d.wf(),
        s1.dom().contains(crate::storage::root_key_spec(name)),
        s1[crate::storage::root_key_spec(name)] == crate::codec::doc_enc(d),
    ensures
        s2.dom().contains(crate::storage::root_key_spec(name)),
        s2[crate::storage::root_key_spec(name)] == crate::codec::doc_enc(
            updated_doc(d, data2, ts2),
        ),
{
    reveal(backup_ensures);
}

#[verifier::spinoff_prover]
proof fn lemma_chunk_count_small(len: nat)
    requires
        len <= usize::MAX,
    ensures
        chunk_count(len) < usize::MAX,
{
    let c = CHUNK_SIZE as nat;
    assert(len / c + 1 < len || len < c) by (nonlinear_arith)
        requires
            c >= 4,
            len <= usize::MAX,
    ;
}

#[verifier::spinoff_prover]
proof fn lemma_restore_fetch(
    s: Map<Seq<u8>, Seq<u8>>,
    name: Seq<u8>,
    rr: Result<Seq<u8>, Error>,
    d: crate::blob::DocumentModel,
)
    requires
        restore_ensures(s, name, rr),
        d.wf(),
        s.dom().contains(crate::storage::root_key_spec(name)),
        s[crate::storage::root_key_spec(name)] == crate::codec::doc_enc(d),
    ensures
        fetch_ensures(s, d.current.hashes, rr),
{
    reveal(restore_ensures);
}

/// Restoring after a second backup yields the second data, zero-padded;
/// together with `lemma_incremental_backup` this covers both halves of an
/// incremental run.
#[verifier::spinoff_prover]
#[verifier::rlimit(100)]
pub proof fn lemma_restore_after_second_backup(
    s0: Map<Seq<u8>, Seq<u8>>,
    s1: Map<Seq<u8>, Seq<u8>>,
    s2: Map<Seq<u8>, Seq<u8>>,
    name: Seq<u8>,
    data1: Seq<u8>,
    data2: Seq<u8>,
    ts1: int,
    ts2: int,
    rb1: Result<u64, Error>,
    rb2: Result<u64, Error>,
    rr: Result<Seq<u8>, Error>,
)
    requires
        s0 == Map::<Seq<u8>, Seq<u8>>::empty(),
        data1.len() <= usize::MAX,
        data2.len() <= usize::MAX,
        i64::MIN <= ts1 <= i64::MAX,
        i64::MIN <= ts2 <= i64::MAX,
        backup_ensures(s0, s1, name, data1, ts1, rb1),
        rb1 is Ok,
        backup_ensures(s1, s2, name, data2, ts2, rb2),
        rb2 is Ok,
        restore_ensures(s2, name, rr),
        chunks_collision_free(data1),
        chunks_collision_free(data2),
        forall|i: int, j: int|
            0 <= i < chunk_count(data1.len()) && 0 <= j < chunk_count(data2.len())
                && #[trigger] crate::hash_value::blake3_of(chunk_at(data1, i))
                == #[trigger] crate::hash_value::blake3_of(chunk_at(data2, j)) ==> chunk_at(
                data1,
                i,
            ) == chunk_at(data2, j),
    ensures
        rr == Ok::<Seq<u8>, Error>(padded(data2)),
{
    let rk = crate::storage::root_key_spec(name);
    let d1 = fresh_doc(data1, ts1);
    lemma_fresh_doc_wf(data1, ts1);
    lemma_root_of_first_backup(s0, s1, name, data1, ts1, rb1);
    lemma_chunk_count_small(data1.len());
    lemma_updated_doc_wf(d1, data2, ts2);
    let d2 = updated_doc(d1, data2, ts2);
    lemma_second_backup_root(s1, s2, name, data2, ts2, rb2, d1);
    lemma_backup_dom_shape(s0, s1, name, data1, ts1, rb1);
    lemma_backup_chunk_values(s0, s1, name, data1, ts1, rb1);
    lemma_second_backup_current_chunks(s1, s2, name, data1, data2, ts2, rb2);
    lemma_restore_fetch(s2, name, rr, d2);
    lemma_fetch_gives_padded(s2, data2, rr);
}

} // verus!
