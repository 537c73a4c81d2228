//! The 32-byte content hash that identifies a chunk.
use vstd::prelude::*;

verus! {

/// Names the raw digest that `blake3::hash` computes for a byte string.
/// The digest depends on the input bytes alone.
pub uninterp spec fn blake3_digest(data: Seq<u8>) -> Seq<u8>;

/// The 32-byte content hash of a byte string. `blake3::hash` always
/// produces exactly 32 bytes, so the normalizing branch is never taken at
/// run time; it only lets every context rely on the length.
pub open spec fn blake3_of(data: Seq<u8>) -> Seq<u8> {
    if blake3_digest(data).len() == 32 {
        blake3_digest(data)
    } else {
        Seq::new(32, |i: int| 0u8)
    }
}

/// The all-zero placeholder value that must never appear in a published
/// manifest.
pub open spec fn zero_hash() -> Seq<u8> {
    Seq::new(32, |i: int| 0u8)
}

/// A 32-byte content hash value, stored as plain bytes.
#[derive(Debug)]
pub struct HashValue {
    pub bytes: Vec<u8>,
}

impl View for HashValue {
    type V = Seq<u8>;

    open spec fn view(&self) -> Seq<u8> {
        self.bytes@
    }
}

impl DeepView for HashValue {
    type V = Seq<u8>;

    open spec fn deep_view(&self) -> Seq<u8> {
        self.bytes@
    }
}

impl HashValue {
    /// A hash value is well formed when it holds exactly 32 bytes.
    pub open spec fn wf(&self) -> bool {
        self.bytes@.len() == 32
    }

    /// Wraps raw bytes as a hash value.
    pub fn from_bytes(bytes: Vec<u8>) -> (r: HashValue)
        ensures
            r@ == bytes@,
    {
        HashValue { bytes }
    }

    /// The all-zero placeholder hash.
    pub fn zero() -> (r: HashValue)
        ensures
            r@ == zero_hash(),
            r.wf(),
    {
        let mut bytes: Vec<u8> = Vec::new();
        let mut i: usize = 0;
        while i < 32
            invariant
                i <= 32,
                bytes@ =~= Seq::new(i as nat, |j: int| 0u8),
            decreases 32 - i,
        {
            bytes.push(0u8);
            i = i + 1;
        }
        assert(bytes@ =~= zero_hash());
        HashValue { bytes }
    }

    /// Whether this value is the all-zero placeholder.
    pub fn is_zero(&self) -> (r: bool)
        ensures
            r == (self@ == zero_hash()),
    {
        if self.bytes.len() != 32 {
            assert(self@ != zero_hash());
            return false;
        }
        let mut i: usize = 0;
        while i < 32
            invariant
                i <= 32,
                self.bytes@.len() == 32,
                forall|j: int| 0 <= j < i ==> self.bytes@[j] == 0u8,
            decreases 32 - i,
        {
            if self.bytes[i] != 0u8 {
                assert(self@ != zero_hash());
                return false;
            }
            i = i + 1;
        }
        assert(self@ =~= zero_hash());
        true
    }
}

impl Clone for HashValue {
    fn clone(&self) -> (r: Self)
        ensures
            r@ == self@,
    {
        HashValue { bytes: copy_bytes(self.bytes.as_slice()) }
    }
}

impl PartialEq for HashValue {
    fn eq(&self, other: &Self) -> (r: bool) {
        bytes_eq(self.bytes.as_slice(), other.bytes.as_slice())
    }
}

impl vstd::std_specs::cmp::PartialEqSpecImpl for HashValue {
    open spec fn obeys_eq_spec() -> bool {
        true
    }

    open spec fn eq_spec(&self, other: &Self) -> bool {
        self.bytes@ == other.bytes@
    }
}

/// Copies a byte slice into a fresh vector.
pub fn copy_bytes(src: &[u8]) -> (r: Vec<u8>)
    ensures
        r@ == src@,
{
    let mut out: Vec<u8> = Vec::new();
    let mut i: usize = 0;
    while i < src.len()
        invariant
            i <= src@.len(),
            out@ =~= src@.take(i as int),
        decreases src@.len() - i,
    {
        out.push(src[i]);
        i = i + 1;
    }
    assert(out@ =~= src@);
    out
}

/// Compares two byte strings for equality.
pub fn bytes_eq(a: &[u8], b: &[u8]) -> (r: bool)
    ensures
        r == (a@ == b@),
{
    if a.len() != b.len() {
        assert(a@ != b@);
        return false;
    }
    let mut i: usize = 0;
    while i < a.len()
        invariant
            i <= a@.len(),
            a@.len() == b@.len(),
            forall|j: int| 0 <= j < i ==> a@[j] == b@[j],
        decreases a@.len() - i,
    {
        if a[i] != b[i] {
            assert(a@ != b@);
            return false;
        }
        i = i + 1;
    }
    assert(a@ =~= b@);
    true
}

/// Pointwise description of the deep view of a hash vector.
pub broadcast proof fn lemma_hash_vec_deep_view(v: Vec<HashValue>)
    ensures
        (#[trigger] v.deep_view()).len() == v@.len(),
        forall|j: int| 0 <= j < v@.len() ==> #[trigger] v.deep_view()[j] == v@[j]@,
        forall|j: int| 0 <= j < v@.len() ==> v.deep_view()[j] == #[trigger] (v@[j]@),
{
    assert forall|j: int| 0 <= j < v@.len() implies #[trigger] v.deep_view()[j] == v@[j]@ by {
        assert(v.deep_view()[j] == v@[j].deep_view());
    }
}

/// Relies on `blake3::hash`: a pure function of the input bytes that
/// returns a 32-byte digest, and on `blake3::Hash::as_bytes`, which
/// exposes those bytes.
#[verifier::external_body]
pub fn hash_bytes(data: &[u8]) -> (r: HashValue)
    ensures
        r@ == blake3_digest(data@),
        r@.len() == 32,
        r@ == blake3_of(data@),
{
    HashValue { bytes: blake3::hash(data).as_bytes().to_vec() }
}



/// Whether one of the hash values in `v` holds the bytes `h`.
pub fn hashes_contain(v: &Vec<HashValue>, h: &HashValue) -> (r: bool)
    ensures
        r == v.deep_view().contains(h@),
{
    let mut i: usize = 0;
    while i < v.len()
        invariant
            i <= v@.len(),
            forall|j: int| 0 <= j < i ==> #[trigger] v@[j]@ != h@,
        decreases v@.len() - i,
    {
        if v[i] == *h {
            assert(v.deep_view()[i as int] == h@);
            return true;
        }
        i = i + 1;
    }
    proof {
        broadcast use lemma_hash_vec_deep_view;

        assert(!v.deep_view().contains(h@));
    }
    false
}

} // verus!
