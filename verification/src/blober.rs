//! Chunk identities and the in-memory set of hashes known to exist in the
//! store, which serves as the deduplication oracle during ingest.
use vstd::prelude::*;

use crate::hash_value::{blake3_of, hash_bytes, HashValue};

verus! {

broadcast use crate::hash_value::lemma_hash_vec_deep_view;

/// A chunk identity: the content hash of one fixed-size block.
#[derive(Debug)]
pub struct BlobChunk {
    pub hash: HashValue,
}

impl BlobChunk {
    /// Hashes `data` and wraps the digest.
    pub fn from_bytes(data: &[u8]) -> (r: BlobChunk)
        ensures
            r.hash@ == blake3_of(data@),
            r.hash.wf(),
    {
        BlobChunk { hash: hash_bytes(data) }
    }

    /// Whether `data` hashes to this chunk's identity.
    pub fn verify(&self, data: &[u8]) -> (r: bool)
        ensures
            r == (blake3_of(data@) == self.hash@),
    {
        let h = hash_bytes(data);
        h == self.hash
    }
}

/// The set of chunk hashes known to exist in the store.
#[derive(Debug)]
pub struct HashStore {
    pub chunks: Vec<HashValue>,
}

impl View for HashStore {
    type V = Set<Seq<u8>>;

    open spec fn view(&self) -> Set<Seq<u8>> {
        self.chunks.deep_view().to_set()
    }
}

impl HashStore {
    /// An empty set of known hashes.
    pub fn new() -> (r: HashStore)
        ensures
            r@ =~= Set::<Seq<u8>>::empty(),
    {
        HashStore { chunks: Vec::new() }
    }

    /// Records `chunk`'s hash as known.
    pub fn add(&mut self, chunk: HashValue)
        ensures
            final(self)@ == old(self)@.insert(chunk@),
    {
        if !self.contains(&chunk) {
            let ghost cv = chunk@;
            self.chunks.push(chunk);
            proof {
                let od = old(self).chunks.deep_view();
                let nd = self.chunks.deep_view();
                assert(nd =~= od.push(cv));
                assert forall|a: Seq<u8>| nd.contains(a) implies od.to_set().insert(cv).contains(
                    a,
                ) by {
                    let i = choose|i: int| 0 <= i < nd.len() && nd[i] == a;
                    if i < od.len() {
                        assert(od[i] == a);
                        assert(od.contains(a));
                    } else {
                        assert(a == cv);
                    }
                }
                assert forall|a: Seq<u8>| od.to_set().insert(cv).contains(a) implies nd.contains(
                    a,
                ) by {
                    if a == cv {
                        assert(nd[nd.len() - 1] == a);
                    } else {
                        let i = choose|i: int| 0 <= i < od.len() && od[i] == a;
                        assert(nd[i] == a);
                    }
                }
                assert(self@ =~= old(self)@.insert(cv));
            }
        } else {
            assert(self@ =~= old(self)@.insert(chunk@));
        }
    }

    /// Whether `chunk`'s hash is known.
    pub fn contains(&self, chunk: &HashValue) -> (r: bool)
        ensures
            r == self@.contains(chunk@),
    {
        let mut i: usize = 0;
        while i < self.chunks.len()
            invariant
                i <= self.chunks@.len(),
                forall|j: int| 0 <= j < i ==> #[trigger] self.chunks@[j]@ != chunk@,
            decreases self.chunks@.len() - i,
        {
            if self.chunks[i] == *chunk {
                assert(self.chunks.deep_view()[i as int] == chunk@);
                return true;
            }
            i = i + 1;
        }
        assert(!self.chunks.deep_view().contains(chunk@));
        false
    }
}

impl Default for HashStore {
    fn default() -> (r: Self)
        ensures
            r@ =~= Set::<Seq<u8>>::empty(),
    {
        HashStore::new()
    }
}

} // verus!
