//! The persisted binary format of the manifest: little-endian varints
//! for lengths and run values, 32 raw bytes per hash, and little-endian
//! two's-complement 64-bit timestamps. The encoding is bit-stable:
//! encoders are pinned to the spec-level byte functions, and decoders
//! return exactly the encoded value on every valid input.
use vstd::prelude::*;

use crate::blob::{Blob, BlobModel, Document, DocumentModel, PrevBlob, PrevBlobModel, runs_view};
use crate::hash_value::{copy_bytes, HashValue};

verus! {

broadcast use crate::hash_value::lemma_hash_vec_deep_view, crate::blob::lemma_prev_vec_deep_view;

/// Whether `pat` occurs in `input` starting at `pos`.
pub open spec fn starts_at(input: Seq<u8>, pos: int, pat: Seq<u8>) -> bool {
    &&& 0 <= pos
    &&& pos + pat.len() <= input.len()
    &&& input.subrange(pos, pos + pat.len()) == pat
}

/// Little-endian varint: seven value bits per byte, high bit set on every
/// byte but the last.
pub open spec fn varint_enc(n: nat) -> Seq<u8>
    decreases n,
{
    if n < 128 {
        seq![n as u8]
    } else {
        seq![(n % 128 + 128) as u8] + varint_enc(n / 128)
    }
}

/// The eight little-endian bytes of a 64-bit value.
pub open spec fn u64_le_enc(x: u64) -> Seq<u8> {
    seq![
        (x & 0xff) as u8,
        ((x >> 8) & 0xff) as u8,
        ((x >> 16) & 0xff) as u8,
        ((x >> 24) & 0xff) as u8,
        ((x >> 32) & 0xff) as u8,
        ((x >> 40) & 0xff) as u8,
        ((x >> 48) & 0xff) as u8,
        ((x >> 56) & 0xff) as u8,
    ]
}

/// A timestamp as eight little-endian two's-complement bytes.
pub open spec fn i64_le_enc(t: int) -> Seq<u8> {
    u64_le_enc((t as i64) as u64)
}

/// Each hash as its 32 raw bytes, concatenated.
pub open spec fn hashes_enc(hs: Seq<Seq<u8>>) -> Seq<u8>
    decreases hs.len(),
{
    if hs.len() == 0 {
        Seq::empty()
    } else {
        hs[0] + hashes_enc(hs.skip(1))
    }
}

/// Each run length as a varint, concatenated.
pub open spec fn runs_enc(rs: Seq<int>) -> Seq<u8>
    decreases rs.len(),
{
    if rs.len() == 0 {
        Seq::empty()
    } else {
        varint_enc(rs[0] as nat) + runs_enc(rs.skip(1))
    }
}

/// `Blob`: hash count, raw hashes, timestamp.
pub open spec fn blob_enc(b: BlobModel) -> Seq<u8> {
    varint_enc(b.hashes.len()) + hashes_enc(b.hashes) + i64_le_enc(b.timestamp)
}

/// `PrevBlob`: run count, runs, diff count, raw diff hashes, timestamp.
pub open spec fn prev_enc(p: PrevBlobModel) -> Seq<u8> {
    varint_enc(p.runs.len()) + runs_enc(p.runs) + varint_enc(p.diffs.len()) + hashes_enc(p.diffs)
        + i64_le_enc(p.timestamp)
}

/// Each history entry in order, concatenated.
pub open spec fn history_enc(hs: Seq<PrevBlobModel>) -> Seq<u8>
    decreases hs.len(),
{
    if hs.len() == 0 {
        Seq::empty()
    } else {
        prev_enc(hs[0]) + history_enc(hs.skip(1))
    }
}

/// `Document`: current blob, history count, history entries.
pub open spec fn doc_enc(d: DocumentModel) -> Seq<u8> {
    blob_enc(d.current) + varint_enc(d.history.len()) + history_enc(d.history)
}

proof fn lemma_hashes_enc_push(hs: Seq<Seq<u8>>, h: Seq<u8>)
    ensures
        hashes_enc(hs.push(h)) == hashes_enc(hs) + h,
    decreases hs.len(),
{
    if hs.len() == 0 {
        assert(hs.push(h)[0] == h);
        assert(hs.push(h).skip(1) =~= Seq::<Seq<u8>>::empty());
        assert(hashes_enc(hs.push(h).skip(1)) == Seq::<u8>::empty());
        assert(hashes_enc(hs.push(h)) == hs.push(h)[0] + hashes_enc(hs.push(h).skip(1)));
        assert(hashes_enc(hs) == Seq::<u8>::empty());
        assert(hashes_enc(hs.push(h)) =~= hashes_enc(hs) + h);
    } else {
        assert(hs.push(h)[0] == hs[0]);
        assert(hs.push(h).skip(1) =~= hs.skip(1).push(h));
        lemma_hashes_enc_push(hs.skip(1), h);
        assert(hashes_enc(hs.push(h)) =~= hashes_enc(hs) + h);
    }
}

proof fn lemma_runs_enc_push(rs: Seq<int>, r: int)
    ensures
        runs_enc(rs.push(r)) == runs_enc(rs) + varint_enc(r as nat),
    decreases rs.len(),
{
    if rs.len() == 0 {
        assert(rs.push(r)[0] == r);
        assert(rs.push(r).skip(1) =~= Seq::<int>::empty());
        assert(runs_enc(rs.push(r).skip(1)) == Seq::<u8>::empty());
        assert(runs_enc(rs.push(r)) == varint_enc(rs.push(r)[0] as nat) + runs_enc(
            rs.push(r).skip(1),
        ));
        assert(runs_enc(rs) == Seq::<u8>::empty());
        assert(runs_enc(rs.push(r)) =~= runs_enc(rs) + varint_enc(r as nat));
    } else {
        assert(rs.push(r)[0] == rs[0]);
        assert(rs.push(r).skip(1) =~= rs.skip(1).push(r));
        lemma_runs_enc_push(rs.skip(1), r);
        assert(runs_enc(rs.push(r)) =~= runs_enc(rs) + varint_enc(r as nat));
    }
}

proof fn lemma_history_enc_push(hs: Seq<PrevBlobModel>, p: PrevBlobModel)
    ensures
        history_enc(hs.push(p)) == history_enc(hs) + prev_enc(p),
    decreases hs.len(),
{
    if hs.len() == 0 {
        assert(hs.push(p)[0] == p);
        assert(hs.push(p).skip(1) =~= Seq::<PrevBlobModel>::empty());
        assert(history_enc(hs.push(p).skip(1)) == Seq::<u8>::empty());
        assert(history_enc(hs.push(p)) == prev_enc(hs.push(p)[0]) + history_enc(
            hs.push(p).skip(1),
        ));
        assert(history_enc(hs) == Seq::<u8>::empty());
        assert(history_enc(hs.push(p)) =~= history_enc(hs) + prev_enc(p));
    } else {
        assert(hs.push(p)[0] == hs[0]);
        assert(hs.push(p).skip(1) =~= hs.skip(1).push(p));
        lemma_history_enc_push(hs.skip(1), p);
        assert(history_enc(hs.push(p)) =~= history_enc(hs) + prev_enc(p));
    }
}

/// Appends the varint encoding of `x`.
fn enc_varint(x: u64, out: &mut Vec<u8>)
    ensures
        final(out)@ == old(out)@ + varint_enc(x as nat),
{
    let ghost x0 = x as nat;
    let mut xc: u64 = x;
    while xc >= 128
        invariant
            out@ + varint_enc(xc as nat) =~= old(out)@ + varint_enc(x0),
        decreases xc,
    {
        out.push((xc % 128 + 128) as u8);
        proof {
            assert(varint_enc((xc / 128) as nat) == varint_enc(xc as nat).skip(1));
            assert(out@ + varint_enc((xc / 128) as nat) =~= old(out)@ + varint_enc(x0));
            assert(xc / 128 < xc) by (nonlinear_arith)
                requires
                    xc >= 128,
            ;
        }
        xc = xc / 128;
    }
    out.push(xc as u8);
    assert(out@ =~= old(out)@ + varint_enc(x0));
}

/// Appends the eight little-endian bytes of `x`.
fn enc_u64_le(x: u64, out: &mut Vec<u8>)
    ensures
        final(out)@ == old(out)@ + u64_le_enc(x),
{
    out.push((x & 0xff) as u8);
    out.push(((x >> 8) & 0xff) as u8);
    out.push(((x >> 16) & 0xff) as u8);
    out.push(((x >> 24) & 0xff) as u8);
    out.push(((x >> 32) & 0xff) as u8);
    out.push(((x >> 40) & 0xff) as u8);
    out.push(((x >> 48) & 0xff) as u8);
    out.push(((x >> 56) & 0xff) as u8);
    assert(out@ =~= old(out)@ + u64_le_enc(x));
}

/// Appends the eight little-endian two's-complement bytes of `t`.
fn enc_i64_le(t: i64, out: &mut Vec<u8>)
    ensures
        final(out)@ == old(out)@ + i64_le_enc(t as int),
{
    enc_u64_le(#[verifier::truncate] (t as u64), out);
}

/// Appends each hash's 32 raw bytes.
#[verifier::loop_isolation(false)]
fn enc_hashes(v: &Vec<HashValue>, out: &mut Vec<u8>)
    ensures
        final(out)@ == old(out)@ + hashes_enc(v.deep_view()),
{
    let mut i: usize = 0;
    while i < v.len()
        invariant
            i <= v@.len(),
            out@ == old(out)@ + hashes_enc(v.deep_view().take(i as int)),
        decreases v@.len() - i,
    {
        let mut piece = copy_bytes(v[i].bytes.as_slice());
        out.append(&mut piece);
        proof {
            lemma_hashes_enc_push(v.deep_view().take(i as int), v.deep_view()[i as int]);
            assert(v.deep_view().take(i + 1) =~= v.deep_view().take(i as int).push(
                v.deep_view()[i as int],
            ));
            assert(out@ =~= old(out)@ + hashes_enc(v.deep_view().take(i + 1)));
        }
        i = i + 1;
    }
    assert(v.deep_view().take(v@.len() as int) =~= v.deep_view());
}

/// Appends each run length as a varint.
#[verifier::loop_isolation(false)]
fn enc_runs(v: &Vec<usize>, out: &mut Vec<u8>)
    ensures
        final(out)@ == old(out)@ + runs_enc(runs_view(v@)),
{
    let mut i: usize = 0;
    while i < v.len()
        invariant
            i <= v@.len(),
            out@ == old(out)@ + runs_enc(runs_view(v@).take(i as int)),
        decreases v@.len() - i,
    {
        enc_varint(v[i] as u64, out);
        proof {
            lemma_runs_enc_push(runs_view(v@).take(i as int), runs_view(v@)[i as int]);
            assert(runs_view(v@).take(i + 1) =~= runs_view(v@).take(i as int).push(
                runs_view(v@)[i as int],
            ));
            assert(out@ =~= old(out)@ + runs_enc(runs_view(v@).take(i + 1)));
        }
        i = i + 1;
    }
    assert(runs_view(v@).take(v@.len() as int) =~= runs_view(v@));
}

/// Appends the encoding of a blob.
fn enc_blob(b: &Blob, out: &mut Vec<u8>)
    ensures
        final(out)@ == old(out)@ + blob_enc(b@),
{
    enc_varint(b.chunk_hashes.len() as u64, out);
    enc_hashes(&b.chunk_hashes, out);
    enc_i64_le(b.timestamp, out);
    assert(final(out)@ =~= old(out)@ + blob_enc(b@));
}

/// Appends the encoding of a history entry.
fn enc_prev(p: &PrevBlob, out: &mut Vec<u8>)
    ensures
        final(out)@ == old(out)@ + prev_enc(p@),
{
    enc_varint(p.same_chunks_lengths.len() as u64, out);
    enc_runs(&p.same_chunks_lengths, out);
    enc_varint(p.diff_chunks.len() as u64, out);
    enc_hashes(&p.diff_chunks, out);
    enc_i64_le(p.timestamp, out);
    assert(final(out)@ =~= old(out)@ + prev_enc(p@));
}

/// Appends the encoding of each history entry in order.
#[verifier::loop_isolation(false)]
fn enc_history(v: &Vec<PrevBlob>, out: &mut Vec<u8>)
    ensures
        final(out)@ == old(out)@ + history_enc(v.deep_view()),
{
    let mut i: usize = 0;
    while i < v.len()
        invariant
            i <= v@.len(),
            out@ == old(out)@ + history_enc(v.deep_view().take(i as int)),
        decreases v@.len() - i,
    {
        enc_prev(&v[i], out);
        proof {
            lemma_history_enc_push(v.deep_view().take(i as int), v.deep_view()[i as int]);
            assert(v.deep_view().take(i + 1) =~= v.deep_view().take(i as int).push(
                v.deep_view()[i as int],
            ));
            assert(out@ =~= old(out)@ + history_enc(v.deep_view().take(i + 1)));
        }
        i = i + 1;
    }
    assert(v.deep_view().take(v@.len() as int) =~= v.deep_view());
}

/// Encodes a document to its persisted bytes.
pub fn encode_document(doc: &Document) -> (r: Vec<u8>)
    ensures
        r@ == doc_enc(doc@),
{
    let mut out: Vec<u8> = Vec::new();
    enc_blob(&doc.current, &mut out);
    enc_varint(doc.history.len() as u64, &mut out);
    enc_history(&doc.history, &mut out);
    assert(out@ =~= doc_enc(doc@));
    out
}


/// Every hash in the sequence holds exactly 32 bytes.
pub open spec fn all32(hs: Seq<Seq<u8>>) -> bool {
    forall|i: int| 0 <= i < hs.len() ==> (#[trigger] hs[i]).len() == 32
}

/// Every run value fits the machine.
pub open spec fn runs_ok(rs: Seq<int>) -> bool {
    forall|i: int| 0 <= i < rs.len() ==> 0 <= #[trigger] rs[i] <= usize::MAX
}

proof fn lemma_varint_len(n: nat)
    ensures
        1 <= varint_enc(n).len(),
        n < 128 <==> varint_enc(n)[0] < 128,
    decreases n,
{
    if n < 128 {
    } else {
        lemma_varint_len(n / 128);
    }
}

proof fn lemma_hashes_enc_len(hs: Seq<Seq<u8>>)
    requires
        all32(hs),
    ensures
        hashes_enc(hs).len() == 32 * hs.len(),
    decreases hs.len(),
{
    if hs.len() == 0 {
    } else {
        assert(all32(hs.skip(1)));
        lemma_hashes_enc_len(hs.skip(1));
    }
}

proof fn lemma_hashes_enc_index(hs: Seq<Seq<u8>>, i: int)
    requires
        all32(hs),
        0 <= i < hs.len(),
    ensures
        hashes_enc(hs).len() == 32 * hs.len(),
        hashes_enc(hs).subrange(32 * i, 32 * i + 32) == hs[i],
    decreases i,
{
    lemma_hashes_enc_len(hs);
    assert(all32(hs.skip(1)));
    lemma_hashes_enc_len(hs.skip(1));
    if i == 0 {
        assert(hashes_enc(hs).subrange(0, 32) =~= hs[0]);
    } else {
        lemma_hashes_enc_index(hs.skip(1), i - 1);
        assert(hashes_enc(hs).subrange(32 * i, 32 * i + 32) =~= hashes_enc(hs.skip(1)).subrange(
            32 * (i - 1),
            32 * (i - 1) + 32,
        ));
    }
}

proof fn lemma_runs_enc_split(rs: Seq<int>, i: int)
    requires
        0 <= i < rs.len(),
    ensures
        runs_enc(rs) == runs_enc(rs.take(i)) + varint_enc(rs[i] as nat) + runs_enc(rs.skip(i + 1)),
    decreases i,
{
    if i == 0 {
        assert(rs.take(0) =~= Seq::<int>::empty());
        assert(runs_enc(rs.take(0)) == Seq::<u8>::empty());
        assert(rs.skip(1) =~= rs.skip(0int + 1));
        assert(runs_enc(rs) =~= runs_enc(rs.take(0)) + varint_enc(rs[0] as nat) + runs_enc(
            rs.skip(1),
        ));
    } else {
        lemma_runs_enc_split(rs.skip(1), i - 1);
        assert(rs.skip(1).take(i - 1) =~= rs.take(i).skip(1));
        assert(rs.skip(1).skip(i - 1 + 1) =~= rs.skip(i + 1));
        assert(rs.skip(1)[i - 1] == rs[i]);
        assert(rs.take(i)[0] == rs[0]);
        assert(runs_enc(rs.take(i)) == varint_enc(rs[0] as nat) + runs_enc(rs.take(i).skip(1)));
        assert(runs_enc(rs) =~= runs_enc(rs.take(i)) + varint_enc(rs[i] as nat) + runs_enc(
            rs.skip(i + 1),
        ));
    }
}

proof fn lemma_history_enc_split(hs: Seq<PrevBlobModel>, i: int)
    requires
        0 <= i < hs.len(),
    ensures
        history_enc(hs) == history_enc(hs.take(i)) + prev_enc(hs[i]) + history_enc(hs.skip(i + 1)),
    decreases i,
{
    if i == 0 {
        assert(hs.take(0) =~= Seq::<PrevBlobModel>::empty());
        assert(history_enc(hs.take(0)) == Seq::<u8>::empty());
        assert(hs.skip(1) =~= hs.skip(0int + 1));
        assert(history_enc(hs) =~= history_enc(hs.take(0)) + prev_enc(hs[0]) + history_enc(
            hs.skip(1),
        ));
    } else {
        lemma_history_enc_split(hs.skip(1), i - 1);
        assert(hs.skip(1).take(i - 1) =~= hs.take(i).skip(1));
        assert(hs.skip(1).skip(i - 1 + 1) =~= hs.skip(i + 1));
        assert(hs.skip(1)[i - 1] == hs[i]);
        assert(hs.take(i)[0] == hs[0]);
        assert(history_enc(hs.take(i)) == prev_enc(hs[0]) + history_enc(hs.take(i).skip(1)));
        assert(history_enc(hs) =~= history_enc(hs.take(i)) + prev_enc(hs[i]) + history_enc(
            hs.skip(i + 1),
        ));
    }
}

/// A pattern made of two parts occurs at `pos` exactly when the first
/// part occurs at `pos` and the second right after it.
proof fn lemma_starts_at_parts(input: Seq<u8>, pos: int, a: Seq<u8>, b: Seq<u8>)
    requires
        starts_at(input, pos, a + b),
    ensures
        starts_at(input, pos, a),
        starts_at(input, pos + a.len(), b),
{
    assert forall|k: int| 0 <= k < a.len() implies input.subrange(pos, pos + a.len())[k] == a[k] by {
        assert(input.subrange(pos, pos + (a + b).len())[k] == (a + b)[k]);
    }
    assert(input.subrange(pos, pos + a.len()) =~= a);
    assert forall|k: int|
        0 <= k < b.len() implies input.subrange(pos + a.len(), pos + a.len() + b.len())[k]
        == b[k] by {
        assert(input.subrange(pos, pos + (a + b).len())[k + a.len()] == (a + b)[k + a.len()]);
    }
    assert(input.subrange(pos + a.len(), pos + a.len() + b.len()) =~= b);
}

/// Copies `n` bytes of `input` starting at `start`.
pub(crate) fn read_exact(input: &[u8], start: usize, n: usize) -> (r: Vec<u8>)
    requires
        start + n <= input@.len(),
    ensures
        r@ == input@.subrange(start as int, start + n),
{
    let len = input.len();
    let mut out: Vec<u8> = Vec::new();
    let mut i: usize = 0;
    while i < n
        invariant
            i <= n,
            start + n <= len,
            len == input@.len(),
            out@ =~= input@.subrange(start as int, start + i),
        decreases n - i,
    {
        out.push(input[start + i]);
        assert(out@ =~= input@.subrange(start as int, start + i + 1));
        i = i + 1;
    }
    out
}

/// Reads one varint; on every input that carries a valid encoding at
/// `pos`, returns exactly the encoded value and the position after it.
fn dec_varint(input: &[u8], pos: usize) -> (r: Option<(u64, usize)>)
    requires
        pos <= input@.len(),
    ensures
        r matches Some(p) ==> pos < p.1 <= input@.len(),
        forall|v: u64|
            starts_at(input@, pos as int, varint_enc(v as nat)) ==> (r matches Some(p) && p.0 == v
                && p.1 == pos + varint_enc(v as nat).len()),
    decreases input@.len() - pos,
{
    if pos >= input.len() {
        proof {
            assert forall|v: u64| !starts_at(input@, pos as int, varint_enc(v as nat)) by {
                lemma_varint_len(v as nat);
            }
        }
        return None;
    }
    let b = input[pos];
    if b < 128 {
        proof {
            assert forall|v: u64| starts_at(input@, pos as int, varint_enc(v as nat)) implies (v
                == b as u64 && varint_enc(v as nat).len() == 1) by {
                lemma_varint_len(v as nat);
                assert(input@.subrange(pos as int, pos + varint_enc(v as nat).len())[0]
                    == input@[pos as int]);
                if v >= 128 {
                    assert(varint_enc(v as nat)[0] == (v as nat % 128 + 128) as u8);
                }
            }
        }
        Some((b as u64, pos + 1))
    } else {
        proof {
            assert forall|v: u64| starts_at(input@, pos as int, varint_enc(v as nat)) implies v
                >= 128 by {
                lemma_varint_len(v as nat);
                assert(input@.subrange(pos as int, pos + varint_enc(v as nat).len())[0]
                    == input@[pos as int]);
            }
        }
        match dec_varint(input, pos + 1) {
            None => {
                proof {
                    assert forall|v: u64| !starts_at(input@, pos as int, varint_enc(v as nat)) by {
                        if starts_at(input@, pos as int, varint_enc(v as nat)) {
                            lemma_varint_len(v as nat);
                            lemma_varint_len((v / 128) as nat);
                            assert(varint_enc(v as nat) == seq![(v as nat % 128 + 128) as u8]
                                + varint_enc((v / 128) as nat));
                            lemma_starts_at_parts(
                                input@,
                                pos as int,
                                seq![(v as nat % 128 + 128) as u8],
                                varint_enc((v / 128) as nat),
                            );
                            assert(starts_at(input@, pos + 1, varint_enc((v / 128) as nat)));
                        }
                    }
                }
                None
            },
            Some((rest, p2)) => {
                proof {
                    assert forall|v: u64| starts_at(input@, pos as int, varint_enc(v as nat))
                        implies (v >= 128 && rest == v / 128 && p2 == pos + varint_enc(
                        v as nat,
                    ).len() && 1 <= rest <= (u64::MAX - 127) / 128) by {
                        lemma_varint_len(v as nat);
                        lemma_varint_len((v / 128) as nat);
                        assert(varint_enc(v as nat) == seq![(v as nat % 128 + 128) as u8]
                            + varint_enc((v / 128) as nat));
                        lemma_starts_at_parts(
                            input@,
                            pos as int,
                            seq![(v as nat % 128 + 128) as u8],
                            varint_enc((v / 128) as nat),
                        );
                        assert(starts_at(input@, pos + 1, varint_enc((v / 128) as nat)));
                        assert(v / 128 >= 1) by (nonlinear_arith)
                            requires
                                v >= 128,
                        ;
                        assert(v / 128 <= (u64::MAX - 127) / 128) by (nonlinear_arith)
                            requires
                                v <= u64::MAX,
                        ;
                    }
                }
                if rest == 0 || rest > (u64::MAX - 127) / 128 {
                    None
                } else {
                    proof {
                        assert(rest * 128 <= u64::MAX - 127) by (nonlinear_arith)
                            requires
                                1 <= rest <= (u64::MAX - 127) / 128,
                        ;
                    }
                    let val = rest * 128 + (b - 128) as u64;
                    proof {
                        assert forall|v: u64| starts_at(input@, pos as int, varint_enc(v as nat))
                            implies v == val by {
                            assert(v >= 128 && rest == v / 128);
                            assert(varint_enc(v as nat)[0] == (v as nat % 128 + 128) as u8);
                            assert(input@.subrange(pos as int, pos + varint_enc(v as nat).len())[0]
                                == input@[pos as int]);
                            assert((v as nat % 128 + 128) as u8 == b);
                            assert(v % 128 == (b - 128) as u64);
                            assert(v == 128 * (v / 128) + v % 128) by (nonlinear_arith);
                        }
                    }
                    Some((val, p2))
                }
            },
        }
    }
}

/// Reads eight little-endian bytes as a 64-bit value.
fn dec_u64_le(input: &[u8], pos: usize) -> (r: Option<(u64, usize)>)
    requires
        pos <= input@.len(),
    ensures
        r matches Some(p) ==> pos < p.1 <= input@.len() && p.1 == pos + 8,
        forall|y: u64|
            starts_at(input@, pos as int, u64_le_enc(y)) ==> (r matches Some(p) && p.0 == y && p.1
                == pos + 8),
{
    if input.len() - pos < 8 {
        return None;
    }
    let b0 = input[pos];
    let b1 = input[pos + 1];
    let b2 = input[pos + 2];
    let b3 = input[pos + 3];
    let b4 = input[pos + 4];
    let b5 = input[pos + 5];
    let b6 = input[pos + 6];
    let b7 = input[pos + 7];
    let x: u64 = (b0 as u64) | ((b1 as u64) << 8) | ((b2 as u64) << 16) | ((b3 as u64) << 24) | (
    (b4 as u64) << 32) | ((b5 as u64) << 40) | ((b6 as u64) << 48) | ((b7 as u64) << 56);
    proof {
        assert forall|y: u64| starts_at(input@, pos as int, u64_le_enc(y)) implies x == y by {
            assert(input@.subrange(pos as int, pos + 8)[0] == input@[pos as int]);
            assert(input@.subrange(pos as int, pos + 8)[1] == input@[pos + 1]);
            assert(input@.subrange(pos as int, pos + 8)[2] == input@[pos + 2]);
            assert(input@.subrange(pos as int, pos + 8)[3] == input@[pos + 3]);
            assert(input@.subrange(pos as int, pos + 8)[4] == input@[pos + 4]);
            assert(input@.subrange(pos as int, pos + 8)[5] == input@[pos + 5]);
            assert(input@.subrange(pos as int, pos + 8)[6] == input@[pos + 6]);
            assert(input@.subrange(pos as int, pos + 8)[7] == input@[pos + 7]);
            assert(y == (((y & 0xff) as u8) as u64) | ((((y >> 8) & 0xff) as u8) as u64) << 8 | (
            (((y >> 16) & 0xff) as u8) as u64) << 16 | ((((y >> 24) & 0xff) as u8) as u64) << 24 | (
            (((y >> 32) & 0xff) as u8) as u64) << 32 | ((((y >> 40) & 0xff) as u8) as u64) << 40 | (
            (((y >> 48) & 0xff) as u8) as u64) << 48 | ((((y >> 56) & 0xff) as u8) as u64) << 56)
                by (bit_vector);
        }
    }
    Some((x, pos + 8))
}


proof fn lemma_hashes_at(input: Seq<u8>, pos: int, hs: Seq<Seq<u8>>, i: int)
    requires
        all32(hs),
        starts_at(input, pos, hashes_enc(hs)),
        0 <= i < hs.len(),
    ensures
        hashes_enc(hs).len() == 32 * hs.len(),
        input.subrange(pos + 32 * i, pos + 32 * i + 32) == hs[i],
{
    lemma_hashes_enc_index(hs, i);
    assert forall|k: int|
        0 <= k < 32 implies input.subrange(pos + 32 * i, pos + 32 * i + 32)[k] == hs[i][k] by {
        assert(input.subrange(pos, pos + hashes_enc(hs).len())[32 * i + k] == hashes_enc(hs)[32 * i
            + k]);
        assert(hashes_enc(hs).subrange(32 * i, 32 * i + 32)[k] == hashes_enc(hs)[32 * i + k]);
    }
    assert(input.subrange(pos + 32 * i, pos + 32 * i + 32) =~= hs[i]);
}

proof fn lemma_runs_at(input: Seq<u8>, pos: int, rs: Seq<int>, i: int)
    requires
        starts_at(input, pos, runs_enc(rs)),
        0 <= i < rs.len(),
    ensures
        starts_at(input, pos + runs_enc(rs.take(i)).len(), varint_enc(rs[i] as nat)),
        runs_enc(rs.take(i + 1)).len() == runs_enc(rs.take(i)).len() + varint_enc(
            rs[i] as nat,
        ).len(),
        runs_enc(rs.take(i)).len() + varint_enc(rs[i] as nat).len() <= runs_enc(rs).len(),
{
    lemma_runs_enc_split(rs, i);
    assert(runs_enc(rs) =~= runs_enc(rs.take(i)) + (varint_enc(rs[i] as nat) + runs_enc(
        rs.skip(i + 1),
    )));
    lemma_starts_at_parts(
        input,
        pos,
        runs_enc(rs.take(i)),
        varint_enc(rs[i] as nat) + runs_enc(rs.skip(i + 1)),
    );
    lemma_starts_at_parts(
        input,
        pos + runs_enc(rs.take(i)).len(),
        varint_enc(rs[i] as nat),
        runs_enc(rs.skip(i + 1)),
    );
    lemma_runs_enc_push(rs.take(i), rs[i]);
    assert(rs.take(i + 1) =~= rs.take(i).push(rs[i]));
}

proof fn lemma_history_at(input: Seq<u8>, pos: int, hs: Seq<PrevBlobModel>, i: int)
    requires
        starts_at(input, pos, history_enc(hs)),
        0 <= i < hs.len(),
    ensures
        starts_at(input, pos + history_enc(hs.take(i)).len(), prev_enc(hs[i])),
        history_enc(hs.take(i + 1)).len() == history_enc(hs.take(i)).len() + prev_enc(
            hs[i],
        ).len(),
        history_enc(hs.take(i)).len() + prev_enc(hs[i]).len() <= history_enc(hs).len(),
{
    lemma_history_enc_split(hs, i);
    assert(history_enc(hs) =~= history_enc(hs.take(i)) + (prev_enc(hs[i]) + history_enc(
        hs.skip(i + 1),
    )));
    lemma_starts_at_parts(
        input,
        pos,
        history_enc(hs.take(i)),
        prev_enc(hs[i]) + history_enc(hs.skip(i + 1)),
    );
    lemma_starts_at_parts(
        input,
        pos + history_enc(hs.take(i)).len(),
        prev_enc(hs[i]),
        history_enc(hs.skip(i + 1)),
    );
    lemma_history_enc_push(hs.take(i), hs[i]);
    assert(hs.take(i + 1) =~= hs.take(i).push(hs[i]));
}

proof fn lemma_prev_decomp(input: Seq<u8>, pos: int, p: PrevBlobModel)
    requires
        starts_at(input, pos, prev_enc(p)),
    ensures
        ({
            let l1 = varint_enc(p.runs.len()).len();
            let l2 = runs_enc(p.runs).len();
            let l3 = varint_enc(p.diffs.len()).len();
            let l4 = hashes_enc(p.diffs).len();
            &&& starts_at(input, pos, varint_enc(p.runs.len()))
            &&& starts_at(input, pos + l1, runs_enc(p.runs))
            &&& starts_at(input, pos + l1 + l2, varint_enc(p.diffs.len()))
            &&& starts_at(input, pos + l1 + l2 + l3, hashes_enc(p.diffs))
            &&& starts_at(input, pos + l1 + l2 + l3 + l4, i64_le_enc(p.timestamp))
            &&& prev_enc(p).len() == l1 + l2 + l3 + l4 + 8
        }),
{
    let a = varint_enc(p.runs.len());
    let b = runs_enc(p.runs);
    let c = varint_enc(p.diffs.len());
    let d = hashes_enc(p.diffs);
    let e = i64_le_enc(p.timestamp);
    assert(prev_enc(p) =~= a + (b + (c + (d + e))));
    lemma_starts_at_parts(input, pos, a, b + (c + (d + e)));
    lemma_starts_at_parts(input, pos + a.len(), b, c + (d + e));
    lemma_starts_at_parts(input, pos + a.len() + b.len(), c, d + e);
    lemma_starts_at_parts(input, pos + a.len() + b.len() + c.len(), d, e);
}

proof fn lemma_blob_decomp(input: Seq<u8>, pos: int, b: BlobModel)
    requires
        starts_at(input, pos, blob_enc(b)),
    ensures
        ({
            let l1 = varint_enc(b.hashes.len()).len();
            let l2 = hashes_enc(b.hashes).len();
            &&& starts_at(input, pos, varint_enc(b.hashes.len()))
            &&& starts_at(input, pos + l1, hashes_enc(b.hashes))
            &&& starts_at(input, pos + l1 + l2, i64_le_enc(b.timestamp))
            &&& blob_enc(b).len() == l1 + l2 + 8
        }),
{
    let a = varint_enc(b.hashes.len());
    let h = hashes_enc(b.hashes);
    let e = i64_le_enc(b.timestamp);
    assert(blob_enc(b) =~= a + (h + e));
    lemma_starts_at_parts(input, pos, a, h + e);
    lemma_starts_at_parts(input, pos + a.len(), h, e);
}

proof fn lemma_doc_decomp(input: Seq<u8>, pos: int, d: DocumentModel)
    requires
        starts_at(input, pos, doc_enc(d)),
    ensures
        ({
            let l1 = blob_enc(d.current).len();
            let l2 = varint_enc(d.history.len()).len();
            &&& starts_at(input, pos, blob_enc(d.current))
            &&& starts_at(input, pos + l1, varint_enc(d.history.len()))
            &&& starts_at(input, pos + l1 + l2, history_enc(d.history))
            &&& doc_enc(d).len() == l1 + l2 + history_enc(d.history).len()
        }),
{
    let a = blob_enc(d.current);
    let b = varint_enc(d.history.len());
    let c = history_enc(d.history);
    assert(doc_enc(d) =~= a + (b + c));
    lemma_starts_at_parts(input, pos, a, b + c);
    lemma_starts_at_parts(input, pos + a.len(), b, c);
}

/// Reads `m` 32-byte hashes.
#[verifier::loop_isolation(false)]
fn dec_hashes(input: &[u8], pos: usize, m: usize) -> (r: Option<(Vec<HashValue>, usize)>)
    requires
        pos <= input@.len(),
    ensures
        r matches Some(p) ==> pos <= p.1 <= input@.len() && p.0@.len() == m && all32(
            p.0.deep_view(),
        ),
        forall|hs: Seq<Seq<u8>>|
            hs.len() == m && all32(hs) && starts_at(input@, pos as int, hashes_enc(hs)) ==> (
            r matches Some(p) && p.0.deep_view() == hs && p.1 == pos + 32 * (m as int)),
{
    let len = input.len();
    let mut out: Vec<HashValue> = Vec::new();
    let mut cur: usize = pos;
    let mut i: usize = 0;
    while i < m
        invariant
            i <= m,
            pos <= cur <= len,
            cur == pos + 32 * (i as int),
            out@.len() == i,
            all32(out.deep_view()),
            forall|hs: Seq<Seq<u8>>|
                hs.len() == m && all32(hs) && starts_at(input@, pos as int, hashes_enc(hs))
                    ==> out.deep_view() == hs.take(i as int),
        decreases m - i,
    {
        if len - cur < 32 {
            proof {
                assert forall|hs: Seq<Seq<u8>>|
                    hs.len() == m && all32(hs) && starts_at(
                        input@,
                        pos as int,
                        hashes_enc(hs),
                    ) implies false by {
                    lemma_hashes_enc_len(hs);
                }
            }
            return None;
        }
        let piece = read_exact(input, cur, 32);
        let h = HashValue::from_bytes(piece);
        let ghost out_before = out.deep_view();
        out.push(h);
        proof {
            assert(out.deep_view() =~~= out_before.push(input@.subrange(cur as int, cur + 32)));
            assert forall|hs: Seq<Seq<u8>>|
                hs.len() == m && all32(hs) && starts_at(
                    input@,
                    pos as int,
                    hashes_enc(hs),
                ) implies out.deep_view() == hs.take(i + 1) by {
                lemma_hashes_at(input@, pos as int, hs, i as int);
                assert(out_before == hs.take(i as int));
                assert(hs.take(i + 1) =~= hs.take(i as int).push(hs[i as int]));
            }
        }
        cur = cur + 32;
        i = i + 1;
    }
    proof {
        assert forall|hs: Seq<Seq<u8>>|
            hs.len() == m && all32(hs) && starts_at(
                input@,
                pos as int,
                hashes_enc(hs),
            ) implies out.deep_view() == hs && cur == pos + 32 * (m as int) by {
            assert(hs.take(m as int) =~= hs);
        }
    }
    Some((out, cur))
}

/// Reads `m` varint run lengths.
#[verifier::loop_isolation(false)]
fn dec_runs(input: &[u8], pos: usize, m: usize) -> (r: Option<(Vec<usize>, usize)>)
    requires
        pos <= input@.len(),
    ensures
        r matches Some(p) ==> pos <= p.1 <= input@.len() && p.0@.len() == m,
        forall|rs: Seq<int>|
            rs.len() == m && runs_ok(rs) && starts_at(input@, pos as int, runs_enc(rs)) ==> (
            r matches Some(p) && runs_view(p.0@) == rs && p.1 == pos + runs_enc(rs).len()),
{
    let len = input.len();
    let mut out: Vec<usize> = Vec::new();
    let mut cur: usize = pos;
    let mut i: usize = 0;
    while i < m
        invariant
            i <= m,
            pos <= cur <= len,
            out@.len() == i,
            forall|rs: Seq<int>|
                rs.len() == m && runs_ok(rs) && starts_at(input@, pos as int, runs_enc(rs)) ==> (
                runs_view(out@) == rs.take(i as int) && cur as int == pos + runs_enc(
                    rs.take(i as int),
                ).len()),
        decreases m - i,
    {
        let step = dec_varint(input, cur);
        match step {
            None => {
                proof {
                    assert forall|rs: Seq<int>|
                        rs.len() == m && runs_ok(rs) && starts_at(
                            input@,
                            pos as int,
                            runs_enc(rs),
                        ) implies false by {
                        lemma_runs_at(input@, pos as int, rs, i as int);
                        assert(varint_enc((rs[i as int] as u64) as nat) == varint_enc(
                            rs[i as int] as nat,
                        ));
                        assert(starts_at(input@, cur as int, varint_enc(rs[i as int] as nat)));
                    }
                }
                return None;
            },
            Some((v, cur2)) => {
                proof {
                    assert forall|rs: Seq<int>|
                        rs.len() == m && runs_ok(rs) && starts_at(
                            input@,
                            pos as int,
                            runs_enc(rs),
                        ) implies v == rs[i as int] as u64 && cur2 as int == pos + runs_enc(
                        rs.take(i + 1),
                    ).len() by {
                        lemma_runs_at(input@, pos as int, rs, i as int);
                        assert(varint_enc((rs[i as int] as u64) as nat) == varint_enc(
                            rs[i as int] as nat,
                        ));
                        assert(starts_at(input@, cur as int, varint_enc(rs[i as int] as nat)));
                    }
                }
                if v > usize::MAX as u64 {
                    return None;
                }
                let ghost out_before = out@;
                out.push(v as usize);
                proof {
                    assert forall|rs: Seq<int>|
                        rs.len() == m && runs_ok(rs) && starts_at(
                            input@,
                            pos as int,
                            runs_enc(rs),
                        ) implies runs_view(out@) == rs.take(i + 1) by {
                        assert(runs_view(out@) =~= runs_view(out_before).push(v as int));
                        assert(rs.take(i + 1) =~= rs.take(i as int).push(rs[i as int]));
                    }
                }
                cur = cur2;
            },
        }
        i = i + 1;
    }
    proof {
        assert forall|rs: Seq<int>|
            rs.len() == m && runs_ok(rs) && starts_at(
                input@,
                pos as int,
                runs_enc(rs),
            ) implies runs_view(out@) == rs && cur as int == pos + runs_enc(rs).len() by {
            assert(rs.take(m as int) =~= rs);
        }
    }
    Some((out, cur))
}

/// Reads one history entry.
fn dec_prev(input: &[u8], pos: usize) -> (r: Option<(PrevBlob, usize)>)
    requires
        pos <= input@.len(),
    ensures
        r matches Some(q) ==> pos <= q.1 <= input@.len(),
        forall|p: PrevBlobModel|
            p.wf() && starts_at(input@, pos as int, prev_enc(p)) ==> (r matches Some(q) && q.0@
                == p && q.1 == pos + prev_enc(p).len()),
{
    let r1 = dec_varint(input, pos);
    let (v1, pos1) = match r1 {
        Some(x) => x,
        None => {
            proof {
                assert forall|p: PrevBlobModel|
                    p.wf() && starts_at(input@, pos as int, prev_enc(p)) implies false by {
                    lemma_prev_decomp(input@, pos as int, p);
                    assert(varint_enc((p.runs.len() as u64) as nat) == varint_enc(p.runs.len()));
                }
            }
            return None;
        },
    };
    proof {
        assert forall|p: PrevBlobModel|
            p.wf() && starts_at(input@, pos as int, prev_enc(p)) implies v1 == p.runs.len() as u64
            && pos1 == pos + varint_enc(p.runs.len()).len() by {
            lemma_prev_decomp(input@, pos as int, p);
            assert(varint_enc((p.runs.len() as u64) as nat) == varint_enc(p.runs.len()));
        }
    }
    if v1 > usize::MAX as u64 {
        return None;
    }
    let r2 = dec_runs(input, pos1, v1 as usize);
    let (runs, pos2) = match r2 {
        Some(x) => x,
        None => {
            proof {
                assert forall|p: PrevBlobModel|
                    p.wf() && starts_at(input@, pos as int, prev_enc(p)) implies false by {
                    lemma_prev_decomp(input@, pos as int, p);
                }
            }
            return None;
        },
    };
    proof {
        assert forall|p: PrevBlobModel|
            p.wf() && starts_at(input@, pos as int, prev_enc(p)) implies runs_view(runs@) == p.runs
            && pos2 == pos + varint_enc(p.runs.len()).len() + runs_enc(p.runs).len() by {
            lemma_prev_decomp(input@, pos as int, p);
        }
    }
    let r3 = dec_varint(input, pos2);
    let (v3, pos3) = match r3 {
        Some(x) => x,
        None => {
            proof {
                assert forall|p: PrevBlobModel|
                    p.wf() && starts_at(input@, pos as int, prev_enc(p)) implies false by {
                    lemma_prev_decomp(input@, pos as int, p);
                    assert(varint_enc((p.diffs.len() as u64) as nat) == varint_enc(p.diffs.len()));
                }
            }
            return None;
        },
    };
    proof {
        assert forall|p: PrevBlobModel|
            p.wf() && starts_at(input@, pos as int, prev_enc(p)) implies v3 == p.diffs.len() as u64
            && pos3 == pos + varint_enc(p.runs.len()).len() + runs_enc(p.runs).len() + varint_enc(
            p.diffs.len(),
        ).len() by {
            lemma_prev_decomp(input@, pos as int, p);
            assert(varint_enc((p.diffs.len() as u64) as nat) == varint_enc(p.diffs.len()));
        }
    }
    if v3 > usize::MAX as u64 {
        return None;
    }
    let r4 = dec_hashes(input, pos3, v3 as usize);
    let (diffs, pos4) = match r4 {
        Some(x) => x,
        None => {
            proof {
                assert forall|p: PrevBlobModel|
                    p.wf() && starts_at(input@, pos as int, prev_enc(p)) implies false by {
                    lemma_prev_decomp(input@, pos as int, p);
                }
            }
            return None;
        },
    };
    proof {
        assert forall|p: PrevBlobModel|
            p.wf() && starts_at(input@, pos as int, prev_enc(p)) implies diffs.deep_view()
            == p.diffs && pos4 == pos + varint_enc(p.runs.len()).len() + runs_enc(p.runs).len()
            + varint_enc(p.diffs.len()).len() + hashes_enc(p.diffs).len() by {
            lemma_prev_decomp(input@, pos as int, p);
            lemma_hashes_enc_len(p.diffs);
        }
    }
    let r5 = dec_u64_le(input, pos4);
    let (ts64, pos5) = match r5 {
        Some(x) => x,
        None => {
            proof {
                assert forall|p: PrevBlobModel|
                    p.wf() && starts_at(input@, pos as int, prev_enc(p)) implies false by {
                    lemma_prev_decomp(input@, pos as int, p);
                }
            }
            return None;
        },
    };
    let result = PrevBlob {
        same_chunks_lengths: runs,
        diff_chunks: diffs,
        timestamp: #[verifier::truncate] (ts64 as i64),
    };
    proof {
        assert forall|p: PrevBlobModel|
            p.wf() && starts_at(input@, pos as int, prev_enc(p)) implies result@ == p && pos5 == pos
            + prev_enc(p).len() by {
            lemma_prev_decomp(input@, pos as int, p);
            assert(ts64 == (p.timestamp as i64) as u64);
            let t = p.timestamp as i64;
            assert(((t as u64) as i64) == t) by (bit_vector);
            assert(result@.timestamp == p.timestamp);
        }
    }
    Some((result, pos5))
}

/// Reads one blob.
fn dec_blob(input: &[u8], pos: usize) -> (r: Option<(Blob, usize)>)
    requires
        pos <= input@.len(),
    ensures
        r matches Some(q) ==> pos <= q.1 <= input@.len(),
        forall|b: BlobModel|
            b.wf() && starts_at(input@, pos as int, blob_enc(b)) ==> (r matches Some(q) && q.0@ == b
                && q.1 == pos + blob_enc(b).len()),
{
    let r1 = dec_varint(input, pos);
    let (v1, pos1) = match r1 {
        Some(x) => x,
        None => {
            proof {
                assert forall|b: BlobModel|
                    b.wf() && starts_at(input@, pos as int, blob_enc(b)) implies false by {
                    lemma_blob_decomp(input@, pos as int, b);
                    assert(varint_enc((b.hashes.len() as u64) as nat) == varint_enc(
                        b.hashes.len(),
                    ));
                }
            }
            return None;
        },
    };
    proof {
        assert forall|b: BlobModel|
            b.wf() && starts_at(input@, pos as int, blob_enc(b)) implies v1 == b.hashes.len() as u64
            && pos1 == pos + varint_enc(b.hashes.len()).len() by {
            lemma_blob_decomp(input@, pos as int, b);
            assert(varint_enc((b.hashes.len() as u64) as nat) == varint_enc(b.hashes.len()));
        }
    }
    if v1 > usize::MAX as u64 {
        return None;
    }
    let r2 = dec_hashes(input, pos1, v1 as usize);
    let (hashes, pos2) = match r2 {
        Some(x) => x,
        None => {
            proof {
                assert forall|b: BlobModel|
                    b.wf() && starts_at(input@, pos as int, blob_enc(b)) implies false by {
                    lemma_blob_decomp(input@, pos as int, b);
                }
            }
            return None;
        },
    };
    proof {
        assert forall|b: BlobModel|
            b.wf() && starts_at(input@, pos as int, blob_enc(b)) implies hashes.deep_view()
            == b.hashes && pos2 == pos + varint_enc(b.hashes.len()).len() + hashes_enc(
            b.hashes,
        ).len() by {
            lemma_blob_decomp(input@, pos as int, b);
            lemma_hashes_enc_len(b.hashes);
        }
    }
    let r3 = dec_u64_le(input, pos2);
    let (ts64, pos3) = match r3 {
        Some(x) => x,
        None => {
            proof {
                assert forall|b: BlobModel|
                    b.wf() && starts_at(input@, pos as int, blob_enc(b)) implies false by {
                    lemma_blob_decomp(input@, pos as int, b);
                }
            }
            return None;
        },
    };
    let result = Blob { chunk_hashes: hashes, timestamp: #[verifier::truncate] (ts64 as i64) };
    proof {
        assert forall|b: BlobModel|
            b.wf() && starts_at(input@, pos as int, blob_enc(b)) implies result@ == b && pos3 == pos
            + blob_enc(b).len() by {
            lemma_blob_decomp(input@, pos as int, b);
            assert(ts64 == (b.timestamp as i64) as u64);
            let t = b.timestamp as i64;
            assert(((t as u64) as i64) == t) by (bit_vector);
            assert(result@.timestamp == b.timestamp);
        }
    }
    Some((result, pos3))
}

/// All history entries are well formed.
pub open spec fn history_wf(hs: Seq<PrevBlobModel>) -> bool {
    forall|i: int| 0 <= i < hs.len() ==> (#[trigger] hs[i]).wf()
}

/// Reads `n` history entries.
#[verifier::loop_isolation(false)]
fn dec_history(input: &[u8], pos: usize, n: usize) -> (r: Option<(Vec<PrevBlob>, usize)>)
    requires
        pos <= input@.len(),
    ensures
        r matches Some(p) ==> pos <= p.1 <= input@.len() && p.0@.len() == n,
        forall|hs: Seq<PrevBlobModel>|
            hs.len() == n && history_wf(hs) && starts_at(input@, pos as int, history_enc(hs)) ==> (
            r matches Some(p) && p.0.deep_view() == hs && p.1 == pos + history_enc(hs).len()),
{
    let mut out: Vec<PrevBlob> = Vec::new();
    let mut cur: usize = pos;
    let mut i: usize = 0;
    while i < n
        invariant
            i <= n,
            pos <= cur <= input@.len(),
            out@.len() == i,
            forall|hs: Seq<PrevBlobModel>|
                hs.len() == n && history_wf(hs) && starts_at(input@, pos as int, history_enc(hs))
                    ==> (out.deep_view() == hs.take(i as int) && cur as int == pos + history_enc(
                    hs.take(i as int),
                ).len()),
        decreases n - i,
    {
        let step = dec_prev(input, cur);
        match step {
            None => {
                proof {
                    assert forall|hs: Seq<PrevBlobModel>|
                        hs.len() == n && history_wf(hs) && starts_at(
                            input@,
                            pos as int,
                            history_enc(hs),
                        ) implies false by {
                        lemma_history_at(input@, pos as int, hs, i as int);
                        assert(starts_at(input@, cur as int, prev_enc(hs[i as int])));
                    }
                }
                return None;
            },
            Some((entry, cur2)) => {
                let ghost out_before = out.deep_view();
                let ghost entry_model = entry@;
                out.push(entry);
                proof {
                    assert(out.deep_view() =~~= out_before.push(entry_model));
                    assert forall|hs: Seq<PrevBlobModel>|
                        hs.len() == n && history_wf(hs) && starts_at(
                            input@,
                            pos as int,
                            history_enc(hs),
                        ) implies (out.deep_view() == hs.take(i + 1) && cur2 as int == pos
                        + history_enc(hs.take(i + 1)).len()) by {
                        lemma_history_at(input@, pos as int, hs, i as int);
                        assert(starts_at(input@, cur as int, prev_enc(hs[i as int])));
                        assert(entry_model == hs[i as int]);
                        assert(hs.take(i + 1) =~= hs.take(i as int).push(hs[i as int]));
                    }
                }
                cur = cur2;
            },
        }
        i = i + 1;
    }
    proof {
        assert forall|hs: Seq<PrevBlobModel>|
            hs.len() == n && history_wf(hs) && starts_at(
                input@,
                pos as int,
                history_enc(hs),
            ) implies (out.deep_view() == hs && cur as int == pos + history_enc(hs).len()) by {
            assert(hs.take(n as int) =~= hs);
        }
    }
    Some((out, cur))
}

/// Decodes a document from its persisted bytes; on the encoding of any
/// well-formed document, returns exactly that document.
pub fn decode_document(bytes: &[u8]) -> (r: Option<Document>)
    ensures
        forall|d: DocumentModel|
            d.wf() && bytes@ == doc_enc(d) ==> (r matches Some(doc) && doc@ == d),
{
    proof {
        assert forall|d: DocumentModel| d.wf() && bytes@ == doc_enc(d) implies starts_at(
            bytes@,
            0,
            doc_enc(d),
        ) by {
            assert(bytes@.subrange(0, doc_enc(d).len() as int) =~= doc_enc(d));
        }
    }
    let r1 = dec_blob(bytes, 0);
    let (current, pos1) = match r1 {
        Some(x) => x,
        None => {
            proof {
                assert forall|d: DocumentModel| d.wf() && bytes@ == doc_enc(d) implies false by {
                    lemma_doc_decomp(bytes@, 0, d);
                }
            }
            return None;
        },
    };
    proof {
        assert forall|d: DocumentModel| d.wf() && bytes@ == doc_enc(d) implies current@ == d.current
            && pos1 == blob_enc(d.current).len() by {
            lemma_doc_decomp(bytes@, 0, d);
        }
    }
    let r2 = dec_varint(bytes, pos1);
    let (v2, pos2) = match r2 {
        Some(x) => x,
        None => {
            proof {
                assert forall|d: DocumentModel| d.wf() && bytes@ == doc_enc(d) implies false by {
                    lemma_doc_decomp(bytes@, 0, d);
                    assert(varint_enc((d.history.len() as u64) as nat) == varint_enc(
                        d.history.len(),
                    ));
                }
            }
            return None;
        },
    };
    proof {
        assert forall|d: DocumentModel| d.wf() && bytes@ == doc_enc(d) implies v2
            == d.history.len() as u64 && pos2 == blob_enc(d.current).len() + varint_enc(
            d.history.len(),
        ).len() by {
            lemma_doc_decomp(bytes@, 0, d);
            assert(varint_enc((d.history.len() as u64) as nat) == varint_enc(d.history.len()));
        }
    }
    if v2 > usize::MAX as u64 {
        return None;
    }
    let r3 = dec_history(bytes, pos2, v2 as usize);
    let (history, pos3) = match r3 {
        Some(x) => x,
        None => {
            proof {
                assert forall|d: DocumentModel| d.wf() && bytes@ == doc_enc(d) implies false by {
                    lemma_doc_decomp(bytes@, 0, d);
                }
            }
            return None;
        },
    };
    if pos3 != bytes.len() {
        proof {
            assert forall|d: DocumentModel| d.wf() && bytes@ == doc_enc(d) implies false by {
                lemma_doc_decomp(bytes@, 0, d);
            }
        }
        return None;
    }
    let result = Document { current, history };
    proof {
        assert forall|d: DocumentModel| d.wf() && bytes@ == doc_enc(d) implies result@ == d by {
            lemma_doc_decomp(bytes@, 0, d);
        }
    }
    Some(result)
}

} // verus!
