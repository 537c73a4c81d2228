//! Content-addressed key layout over a key-to-bytes store: the root
//! manifest lives under an `R`-prefixed key, chunks under `C` followed by
//! the unpadded base64url text of their 32-byte hash.
use vstd::prelude::*;

use base64::Engine;
use base64::prelude::BASE64_URL_SAFE_NO_PAD;

use crate::hash_value::HashValue;
use crate::server_store::{entries_view, lemma_entries_map_dom, InMemoryStorage};

verus! {

broadcast use crate::hash_value::lemma_hash_vec_deep_view;

/// Prefix byte of the root-manifest key space (ASCII `R`).
pub const ROOT_KEY_PREFIX: u8 = 82;

/// Prefix byte of the chunk key space (ASCII `C`).
pub const CHUNK_KEY_PREFIX: u8 = 67;

/// Names the unpadded base64url text that `base64`'s URL_SAFE_NO_PAD
/// engine encodes a byte string to; it depends on the input alone.
pub uninterp spec fn b64url_of(data: Seq<u8>) -> Seq<u8>;

/// Names the bytes that the same engine's `decode` reads back from a
/// text; it depends on the text alone.
pub uninterp spec fn b64url_inv(text: Seq<u8>) -> Seq<u8>;

/// Whether a byte string decodes back from its own encoding; every value
/// that passes through `b64url_encode` is seen to.
pub open spec fn b64_round_trips(data: Seq<u8>) -> bool {
    b64url_inv(b64url_of(data)) == data
}

/// The store key of the chunk with hash `h`.
pub open spec fn chunk_key_spec(h: Seq<u8>) -> Seq<u8> {
    seq![CHUNK_KEY_PREFIX] + b64url_of(h)
}

/// The store key of the root manifest named `name`.
pub open spec fn root_key_spec(name: Seq<u8>) -> Seq<u8> {
    seq![ROOT_KEY_PREFIX] + name
}

/// Relies on `base64::engine::general_purpose::URL_SAFE_NO_PAD`:
/// `encode` emits the canonical unpadded base64url text of its input,
/// four characters for every three bytes, and `decode` reads exactly
/// that text back to the input.
#[verifier::external_body]
fn b64url_encode(data: &[u8]) -> (r: Vec<u8>)
    ensures
        r@ == b64url_of(data@),
        r@.len() == (data@.len() * 4 + 2) / 3,
        b64url_inv(r@) == data@,
{
    BASE64_URL_SAFE_NO_PAD.encode(data).into_bytes()
}

/// Relies on the same engine's `decode`: it accepts a text exactly when
/// the text is the canonical unpadded base64url encoding of some bytes
/// (padding characters and nonzero trailing bits are refused), and then
/// returns those bytes.
#[verifier::external_body]
fn b64url_decode(text: &[u8]) -> (r: Option<Vec<u8>>)
    ensures
        match r {
            Some(v) => v@ == b64url_inv(text@) && b64url_of(v@) == text@,
            None => forall|v: Seq<u8>| b64url_of(v) != text@,
        },
{
    match BASE64_URL_SAFE_NO_PAD.decode(text) {
        Ok(v) => Some(v),
        Err(_) => None,
    }
}

/// Builds the store key of the chunk with the given hash.
pub fn chunk_key(hash: &HashValue) -> (r: Vec<u8>)
    ensures
        r@ == chunk_key_spec(hash@),
        b64_round_trips(hash@),
{
    let mut out: Vec<u8> = Vec::new();
    out.push(CHUNK_KEY_PREFIX);
    let mut enc = b64url_encode(hash.bytes.as_slice());
    out.append(&mut enc);
    assert(out@ =~= chunk_key_spec(hash@));
    out
}

/// Builds the store key of the root manifest with the given name.
pub fn root_key(name: &[u8]) -> (r: Vec<u8>)
    ensures
        r@ == root_key_spec(name@),
{
    let mut out: Vec<u8> = Vec::new();
    out.push(ROOT_KEY_PREFIX);
    let mut i: usize = 0;
    while i < name.len()
        invariant
            i <= name@.len(),
            out@ =~= seq![ROOT_KEY_PREFIX] + name@.take(i as int),
        decreases name@.len() - i,
    {
        out.push(name[i]);
        i = i + 1;
    }
    assert(out@ =~= root_key_spec(name@));
    out
}

/// Reads a chunk hash back out of a store key; `None` for the root key,
/// for foreign keys, and for chunk keys whose suffix does not decode to
/// 32 bytes.
pub fn parse_chunk_key(key: &[u8]) -> (r: Option<HashValue>)
    ensures
        match r {
            Some(h) => h.wf() && key@ == chunk_key_spec(h@) && b64_round_trips(h@),
            None => forall|h: Seq<u8>|
                h.len() == 32 && #[trigger] b64_round_trips(h) ==> key@ != chunk_key_spec(h),
        },
{
    if key.len() == 0 || key[0] != CHUNK_KEY_PREFIX {
        assert forall|h: Seq<u8>| h.len() == 32 && #[trigger] b64_round_trips(h) implies key@
            != chunk_key_spec(h) by {
            assert(chunk_key_spec(h)[0] == CHUNK_KEY_PREFIX);
        }
        return None;
    }
    let mut tail: Vec<u8> = Vec::new();
    let mut i: usize = 1;
    while i < key.len()
        invariant
            1 <= i <= key@.len(),
            tail@ =~= key@.subrange(1, i as int),
        decreases key@.len() - i,
    {
        tail.push(key[i]);
        i = i + 1;
    }
    assert(tail@ =~= key@.skip(1));
    match b64url_decode(tail.as_slice()) {
        Some(v) => {
            if v.len() == 32 {
                let ghost vv = v@;
                let h = HashValue::from_bytes(v);
                proof {
                    assert(key@ =~= seq![CHUNK_KEY_PREFIX] + key@.skip(1));
                    assert(key@ == chunk_key_spec(vv));
                    assert(b64url_inv(b64url_of(vv)) == vv);
                }
                Some(h)
            } else {
                assert forall|h: Seq<u8>| h.len() == 32 && #[trigger] b64_round_trips(h) implies
                    key@ != chunk_key_spec(h) by {
                    if key@ == chunk_key_spec(h) {
                        assert(tail@ =~= b64url_of(h));
                        assert(v@ == b64url_inv(b64url_of(h)));
                    }
                }
                None
            }
        },
        None => {
            assert forall|h: Seq<u8>| h.len() == 32 && #[trigger] b64_round_trips(h) implies key@
                != chunk_key_spec(h) by {
                if key@ == chunk_key_spec(h) {
                    assert(tail@ =~= b64url_of(h));
                }
            }
            None
        },
    }
}

/// Lists the hashes of every chunk object the store holds, by reading
/// the chunk-prefixed keys back; keys that do not parse are skipped.
#[verifier::loop_isolation(false)]
pub fn available_hashes(store: &InMemoryStorage) -> (r: Vec<HashValue>)
    ensures
        forall|j: int|
            0 <= j < r@.len() ==> (#[trigger] r@[j]@).len() == 32 && store@.dom().contains(
                chunk_key_spec(r@[j]@),
            ),
        forall|h: Seq<u8>|
            h.len() == 32 && #[trigger] b64_round_trips(h) && store@.dom().contains(
                chunk_key_spec(h),
            ) ==> exists|j: int| 0 <= j < r@.len() && #[trigger] r@[j]@ == h,
{
    proof {
        lemma_entries_map_dom(entries_view(store.entries@));
    }
    let keys = store.list_keys();
    let mut out: Vec<HashValue> = Vec::new();
    let mut i: usize = 0;
    while i < keys.len()
        invariant
            i <= keys@.len(),
            keys@.len() == entries_view(store.entries@).len(),
            forall|q: int| 0 <= q < keys@.len() ==> #[trigger] keys@[q]@ == entries_view(store.entries@)[q].0,
            forall|j: int|
                0 <= j < out@.len() ==> (#[trigger] out@[j]@).len() == 32 && store@.dom().contains(
                    chunk_key_spec(out@[j]@),
                ),
            forall|h: Seq<u8>, q: int|
                #![trigger b64_round_trips(h), entries_view(store.entries@)[q]]
                h.len() == 32 && b64_round_trips(h) && 0 <= q < i && entries_view(
                    store.entries@,
                )[q].0 == chunk_key_spec(h) ==> exists|j: int|
                    0 <= j < out@.len() && #[trigger] out@[j]@ == h,
        decreases keys@.len() - i,
    {
        let parsed = parse_chunk_key(keys[i].as_slice());
        match parsed {
            Some(h) => {
                let ghost hv = h@;
                let ghost out_before = out@;
                out.push(h);
                proof {
                    assert(out@[out@.len() - 1]@ == hv);
                    assert(entries_view(store.entries@)[i as int].0 == chunk_key_spec(hv));
                    assert(store@.dom().contains(chunk_key_spec(hv)));
                    assert forall|h2: Seq<u8>, q: int|
                        #![trigger b64_round_trips(h2), entries_view(store.entries@)[q]]
                        h2.len() == 32 && b64_round_trips(h2) && 0 <= q < i + 1
                            && entries_view(store.entries@)[q].0 == chunk_key_spec(h2) implies
                        exists|j: int| 0 <= j < out@.len() && #[trigger] out@[j]@ == h2 by {
                        if q == i {
                            assert(keys@[q]@ == chunk_key_spec(h2));
                            assert(chunk_key_spec(h2).skip(1) =~= b64url_of(h2));
                            assert(chunk_key_spec(hv).skip(1) =~= b64url_of(hv));
                            assert(b64url_of(h2) == b64url_of(hv));
                            assert(h2 == b64url_inv(b64url_of(h2)));
                            assert(out@[out@.len() - 1]@ == h2);
                        } else {
                            let j = choose|j: int|
                                0 <= j < out_before.len() && #[trigger] out_before[j]@ == h2;
                            assert(out@[j]@ == h2);
                        }
                    }
                }
            },
            None => {
                proof {
                    assert forall|h2: Seq<u8>, q: int|
                        #![trigger b64_round_trips(h2), entries_view(store.entries@)[q]]
                        h2.len() == 32 && b64_round_trips(h2) && 0 <= q < i + 1
                            && entries_view(store.entries@)[q].0 == chunk_key_spec(h2) implies
                        exists|j: int| 0 <= j < out@.len() && #[trigger] out@[j]@ == h2 by {
                        if q == i {
                            assert(keys@[q]@ == chunk_key_spec(h2));
                        }
                    }
                }
            },
        }
        i = i + 1;
    }
    proof {
        assert forall|h: Seq<u8>|
            h.len() == 32 && #[trigger] b64_round_trips(h) && store@.dom().contains(
                chunk_key_spec(h),
            ) implies exists|j: int| 0 <= j < out@.len() && #[trigger] out@[j]@ == h by {
            let q = choose|q: int|
                0 <= q < entries_view(store.entries@).len() && (#[trigger] entries_view(
                    store.entries@,
                )[q]).0 == chunk_key_spec(h);
            assert(entries_view(store.entries@)[q].0 == chunk_key_spec(h));
        }
    }
    out
}

} // verus!
