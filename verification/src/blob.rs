//! Manifest data model: `Blob` (one snapshot of the file as a chunk-hash
//! sequence), `PrevBlob` (a prior snapshot stored as a reverse delta
//! against its successor), and `Document` (the current blob plus the
//! delta history), together with the delta algorithm and its proof.
use vstd::prelude::*;

use crate::hash_value::{zero_hash, HashValue};
use crate::CHUNK_SIZE;

verus! {

broadcast use crate::hash_value::lemma_hash_vec_deep_view;

/// Mathematical model of a `Blob`: the chunk hashes in file order and the
/// snapshot's Unix-seconds timestamp.
pub ghost struct BlobModel {
    pub hashes: Seq<Seq<u8>>,
    pub timestamp: int,
}

impl BlobModel {
    /// Every hash holds exactly 32 bytes, and the machine can hold the
    /// sequence and the timestamp.
    pub open spec fn wf(self) -> bool {
        &&& forall|i: int| 0 <= i < self.hashes.len() ==> (#[trigger] self.hashes[i]).len() == 32
        &&& self.hashes.len() <= usize::MAX
        &&& i64::MIN <= self.timestamp <= i64::MAX
    }

    /// No all-zero placeholder hash remains; required of every published
    /// blob.
    pub open spec fn no_placeholder(self) -> bool {
        forall|i: int| 0 <= i < self.hashes.len() ==> (#[trigger] self.hashes[i]) != zero_hash()
    }
}

/// Mathematical model of a `PrevBlob`: run lengths of chunks equal to the
/// successor, the hashes that differ, and the prior snapshot's timestamp.
pub ghost struct PrevBlobModel {
    pub runs: Seq<int>,
    pub diffs: Seq<Seq<u8>>,
    pub timestamp: int,
}

impl PrevBlobModel {
    /// Runs and diffs alternate: every diff is preceded by a run (possibly
    /// of length zero), and at most one trailing run has no diff.
    pub open spec fn wf(self) -> bool {
        &&& self.diffs.len() <= self.runs.len() <= self.diffs.len() + 1
        &&& forall|i: int| 0 <= i < self.runs.len() ==> 0 <= #[trigger] self.runs[i] <= usize::MAX
        &&& forall|i: int| 0 <= i < self.diffs.len() ==> (#[trigger] self.diffs[i]).len() == 32
        &&& self.runs.len() <= usize::MAX
        &&& self.diffs.len() <= usize::MAX
        &&& i64::MIN <= self.timestamp <= i64::MAX
    }
}

/// Mathematical model of a `Document`.
pub ghost struct DocumentModel {
    pub current: BlobModel,
    pub history: Seq<PrevBlobModel>,
}

impl DocumentModel {
    pub open spec fn wf(self) -> bool {
        &&& self.current.wf()
        &&& forall|i: int| 0 <= i < self.history.len() ==> (#[trigger] self.history[i]).wf()
        &&& self.history.len() <= usize::MAX
    }
}

/// One snapshot of the backed-up file: an ordered sequence of chunk
/// hashes plus a Unix-seconds timestamp.
#[derive(Debug)]
pub struct Blob {
    pub chunk_hashes: Vec<HashValue>,
    pub timestamp: i64,
}

impl View for Blob {
    type V = BlobModel;

    open spec fn view(&self) -> BlobModel {
        BlobModel { hashes: self.chunk_hashes.deep_view(), timestamp: self.timestamp as int }
    }
}

impl DeepView for Blob {
    type V = BlobModel;

    open spec fn deep_view(&self) -> BlobModel {
        self@
    }
}

/// A prior snapshot encoded as a reverse delta against its successor.
#[derive(Debug)]
pub struct PrevBlob {
    pub same_chunks_lengths: Vec<usize>,
    pub diff_chunks: Vec<HashValue>,
    pub timestamp: i64,
}

/// The run lengths of a delta as mathematical integers.
pub open spec fn runs_view(runs: Seq<usize>) -> Seq<int> {
    runs.map_values(|x: usize| x as int)
}

impl View for PrevBlob {
    type V = PrevBlobModel;

    open spec fn view(&self) -> PrevBlobModel {
        PrevBlobModel {
            runs: runs_view(self.same_chunks_lengths@),
            diffs: self.diff_chunks.deep_view(),
            timestamp: self.timestamp as int,
        }
    }
}

impl DeepView for PrevBlob {
    type V = PrevBlobModel;

    open spec fn deep_view(&self) -> PrevBlobModel {
        self@
    }
}

/// The persisted manifest for one backup target: the current snapshot and
/// the reverse-delta history, oldest delta first.
#[derive(Debug)]
pub struct Document {
    pub current: Blob,
    pub history: Vec<PrevBlob>,
}

impl View for Document {
    type V = DocumentModel;

    open spec fn view(&self) -> DocumentModel {
        DocumentModel { current: self.current@, history: self.history.deep_view() }
    }
}

/// Relies on `chrono::Utc::now` and `DateTime::timestamp`: the current
/// wall-clock time in whole Unix seconds. Nothing is promised of the
/// value; callers state what holds whatever time comes back.
#[verifier::external_body]
pub fn now_seconds() -> i64 {
    chrono::Utc::now().timestamp()
}

/// Copies a vector of hash values.
pub(crate) fn clone_hashes(v: &Vec<HashValue>) -> (r: Vec<HashValue>)
    ensures
        r.deep_view() == v.deep_view(),
{
    let mut out: Vec<HashValue> = Vec::new();
    let mut i: usize = 0;
    while i < v.len()
        invariant
            i <= v@.len(),
            out@.len() == i,
            forall|j: int| 0 <= j < i ==> #[trigger] out@[j]@ == v@[j]@,
        decreases v@.len() - i,
    {
        out.push(v[i].clone());
        i = i + 1;
    }
    assert(out.deep_view() =~~= v.deep_view());
    out
}

impl Clone for Blob {
    fn clone(&self) -> (r: Self)
        ensures
            r@ == self@,
    {
        Blob { chunk_hashes: clone_hashes(&self.chunk_hashes), timestamp: self.timestamp }
    }
}

impl Clone for PrevBlob {
    fn clone(&self) -> (r: Self)
        ensures
            r@ == self@,
    {
        let mut runs: Vec<usize> = Vec::new();
        let mut i: usize = 0;
        while i < self.same_chunks_lengths.len()
            invariant
                i <= self.same_chunks_lengths@.len(),
                runs@ =~= self.same_chunks_lengths@.take(i as int),
            decreases self.same_chunks_lengths@.len() - i,
        {
            runs.push(self.same_chunks_lengths[i]);
            i = i + 1;
        }
        assert(runs@ =~= self.same_chunks_lengths@);
        PrevBlob {
            same_chunks_lengths: runs,
            diff_chunks: clone_hashes(&self.diff_chunks),
            timestamp: self.timestamp,
        }
    }
}

/// The hash sequence after assigning `h` at `idx`: an in-range index is
/// overwritten; past the end, the gap is filled with the placeholder.
pub open spec fn set_spec(hs: Seq<Seq<u8>>, idx: int, h: Seq<u8>) -> Seq<Seq<u8>> {
    if 0 <= idx < hs.len() {
        hs.update(idx, h)
    } else {
        hs + Seq::new((idx - hs.len()) as nat, |j: int| zero_hash()) + seq![h]
    }
}

impl Blob {
    /// A blob is well formed when its model is.
    pub open spec fn wf(&self) -> bool {
        self@.wf()
    }

    /// A zero-length snapshot stamped with the given time.
    pub fn empty_at(timestamp: i64) -> (r: Blob)
        ensures
            r@.hashes =~= Seq::<Seq<u8>>::empty(),
            r@.timestamp == timestamp,
            r.wf(),
    {
        Blob { chunk_hashes: Vec::new(), timestamp }
    }

    /// A zero-length snapshot stamped with the current time.
    pub fn empty() -> (r: Blob)
        ensures
            r@.hashes =~= Seq::<Seq<u8>>::empty(),
            r.wf(),
    {
        Blob::empty_at(now_seconds())
    }

    /// A copy of this snapshot stamped with the given time; used to seed
    /// an incremental backup.
    pub fn fork_at(&self, timestamp: i64) -> (r: Blob)
        ensures
            r@.hashes == self@.hashes,
            r@.timestamp == timestamp,
    {
        Blob { chunk_hashes: clone_hashes(&self.chunk_hashes), timestamp }
    }

    /// A copy of this snapshot stamped with the current time.
    pub fn fork(&self) -> (r: Blob)
        ensures
            r@.hashes == self@.hashes,
    {
        self.fork_at(now_seconds())
    }

    /// The snapshot's Unix-seconds timestamp.
    pub fn timestamp(&self) -> (r: i64)
        ensures
            r as int == self@.timestamp,
    {
        self.timestamp
    }

    /// The snapshot's logical size in bytes.
    pub fn size(&self) -> (r: u64)
        requires
            self@.hashes.len() * CHUNK_SIZE <= u64::MAX,
        ensures
            r == self@.hashes.len() * CHUNK_SIZE,
    {
        (self.chunk_hashes.len() as u64) * (CHUNK_SIZE as u64)
    }

    /// The ordered chunk hashes of this snapshot.
    pub fn chunk_hashes(&self) -> (r: &Vec<HashValue>)
        ensures
            r.deep_view() == self@.hashes,
    {
        &self.chunk_hashes
    }

    /// Assigns `hash` at chunk index `idx`, padding any gap with the
    /// placeholder hash.
    pub fn set(&mut self, idx: usize, hash: HashValue)
        requires
            idx < usize::MAX,
        ensures
            final(self)@.hashes == set_spec(old(self)@.hashes, idx as int, hash@),
            final(self)@.timestamp == old(self)@.timestamp,
    {
        if self.chunk_hashes.len() <= idx {
            let ghost orig = self.chunk_hashes.deep_view();
            while self.chunk_hashes.len() < idx
                invariant
                    orig.len() <= self.chunk_hashes@.len() <= idx,
                    idx < usize::MAX,
                    orig == old(self)@.hashes,
                    self.timestamp == old(self).timestamp,
                    forall|k: int| 0 <= k < orig.len() ==> #[trigger] self.chunk_hashes@[k]@ == orig[k],
                    forall|k: int|
                        orig.len() <= k < self.chunk_hashes@.len() ==> #[trigger] self.chunk_hashes@[k]@
                            == zero_hash(),
                decreases idx - self.chunk_hashes@.len(),
            {
                self.chunk_hashes.push(HashValue::zero());
            }
            self.chunk_hashes.push(hash);
            assert(self.chunk_hashes.deep_view() =~~= set_spec(
                old(self)@.hashes,
                idx as int,
                hash@,
            ));
        } else {
            self.chunk_hashes.set(idx, hash);
            assert(self.chunk_hashes.deep_view() =~~= set_spec(
                old(self)@.hashes,
                idx as int,
                hash@,
            ));
        }
    }

    /// Shortens the snapshot to at most `n` chunks.
    pub fn truncate_chunks(&mut self, n: usize)
        ensures
            final(self)@.hashes == if n as int <= old(self)@.hashes.len() {
                old(self)@.hashes.take(n as int)
            } else {
                old(self)@.hashes
            },
            final(self)@.timestamp == old(self)@.timestamp,
    {
        self.chunk_hashes.truncate(n);
        assert(self.chunk_hashes.deep_view() =~~= if n as int <= old(self)@.hashes.len() {
            old(self)@.hashes.take(n as int)
        } else {
            old(self)@.hashes
        });
    }

    /// Whether no placeholder hash remains; must hold before publish.
    pub fn verify_invariants(&self) -> (r: bool)
        ensures
            r == self@.no_placeholder(),
    {
        let mut i: usize = 0;
        while i < self.chunk_hashes.len()
            invariant
                i <= self.chunk_hashes@.len(),
                forall|j: int| 0 <= j < i ==> (#[trigger] self@.hashes[j]) != zero_hash(),
            decreases self.chunk_hashes@.len() - i,
        {
            if self.chunk_hashes[i].is_zero() {
                assert(self@.hashes[i as int] == zero_hash());
                return false;
            }
            i = i + 1;
        }
        true
    }
}

impl PrevBlob {
    /// The number of bytes this prior version uniquely retains.
    pub fn retained_size(&self) -> (r: u64)
        requires
            self@.diffs.len() * CHUNK_SIZE <= u64::MAX,
        ensures
            r == self@.diffs.len() * CHUNK_SIZE,
    {
        (self.diff_chunks.len() as u64) * (CHUNK_SIZE as u64)
    }

    /// The prior snapshot's Unix-seconds timestamp.
    pub fn timestamp(&self) -> (r: i64)
        ensures
            r as int == self@.timestamp,
    {
        self.timestamp
    }

    /// The chunk hashes that only this prior version references.
    pub fn unique_chunk_hashes(&self) -> (r: &Vec<HashValue>)
        ensures
            r.deep_view() == self@.diffs,
    {
        &self.diff_chunks
    }
}


/// Clamps `x` into `[lo, hi]`.
pub open spec fn clampi(x: int, lo: int, hi: int) -> int {
    if x < lo {
        lo
    } else if x > hi {
        hi
    } else {
        x
    }
}

/// The smaller of two integers.
pub open spec fn min_int(a: int, b: int) -> int {
    if a < b {
        a
    } else {
        b
    }
}

/// The successor hashes that a run of length `r` starting at position
/// `pos` copies; parts that lie outside `next` contribute nothing.
pub open spec fn copy_window(next: Seq<Seq<u8>>, pos: int, r: int) -> Seq<Seq<u8>> {
    let lo = clampi(pos, 0, next.len() as int);
    let hi = clampi(pos + r, lo, next.len() as int);
    next.subrange(lo, hi)
}

/// Walks a delta against the successor hash sequence `next`, starting at
/// successor position `pos`: each run copies that many successor hashes;
/// then, while a differing hash remains, it is emitted in place of one
/// successor slot.
pub open spec fn reconstruct(
    runs: Seq<int>,
    diffs: Seq<Seq<u8>>,
    next: Seq<Seq<u8>>,
    pos: int,
) -> Seq<Seq<u8>>
    decreases runs.len(),
{
    if runs.len() == 0 {
        Seq::empty()
    } else if diffs.len() > 0 {
        copy_window(next, pos, runs[0]) + seq![diffs[0]] + reconstruct(
            runs.skip(1),
            diffs.skip(1),
            next,
            pos + runs[0] + 1,
        )
    } else {
        copy_window(next, pos, runs[0]) + reconstruct(runs.skip(1), diffs, next, pos + runs[0])
    }
}

/// Total length of the run segments.
pub open spec fn sum_runs(runs: Seq<int>) -> int
    decreases runs.len(),
{
    if runs.len() == 0 {
        0
    } else {
        runs[0] + sum_runs(runs.skip(1))
    }
}

/// The canonical delta of `prev` against `new`, continued from position
/// `i` with a pending run of `run` equal chunks: runs of equal hashes are
/// counted; a differing position flushes the pending run and records the
/// prior hash.
pub open spec fn diff_rec(new: Seq<Seq<u8>>, prev: Seq<Seq<u8>>, i: int, run: int) -> (Seq<int>, Seq<
    Seq<u8>,
>)
    decreases prev.len() - i,
{
    if i < 0 || i >= prev.len() {
        (if run > 0 {
            seq![run]
        } else {
            Seq::empty()
        }, Seq::empty())
    } else if i < new.len() && new[i] == prev[i] {
        diff_rec(new, prev, i + 1, run + 1)
    } else {
        let rest = diff_rec(new, prev, i + 1, 0);
        (seq![run] + rest.0, seq![prev[i]] + rest.1)
    }
}

/// The run lengths of the canonical delta of `prev` against `new`.
pub open spec fn diff_runs(new: Seq<Seq<u8>>, prev: Seq<Seq<u8>>) -> Seq<int> {
    diff_rec(new, prev, 0, 0).0
}

/// The differing hashes of the canonical delta of `prev` against `new`.
pub open spec fn diff_diffs(new: Seq<Seq<u8>>, prev: Seq<Seq<u8>>) -> Seq<Seq<u8>> {
    diff_rec(new, prev, 0, 0).1
}

proof fn lemma_sum_push(runs: Seq<int>, r: int)
    ensures
        sum_runs(runs.push(r)) == sum_runs(runs) + r,
    decreases runs.len(),
{
    if runs.len() == 0 {
        assert(runs.push(r)[0] == r);
        assert(runs.push(r).skip(1) =~= Seq::<int>::empty());
        assert(sum_runs(runs.push(r).skip(1)) == 0);
    } else {
        assert(runs.push(r)[0] == runs[0]);
        assert(runs.push(r).skip(1) =~= runs.skip(1).push(r));
        lemma_sum_push(runs.skip(1), r);
    }
}

/// Appending a trailing run to a delta whose diffs are already exhausted
/// appends the run's copy window to the reconstruction.
proof fn lemma_reconstruct_push_run(
    runs: Seq<int>,
    diffs: Seq<Seq<u8>>,
    next: Seq<Seq<u8>>,
    pos: int,
    r: int,
)
    requires
        diffs.len() <= runs.len(),
    ensures
        reconstruct(runs.push(r), diffs, next, pos) == reconstruct(runs, diffs, next, pos)
            + copy_window(next, pos + sum_runs(runs) + diffs.len(), r),
    decreases runs.len(),
{
    if runs.len() == 0 {
        assert(runs.push(r)[0] == r);
        assert(runs.push(r).skip(1) =~= Seq::<int>::empty());
        assert(reconstruct(runs.push(r).skip(1), diffs, next, pos + r) =~= Seq::<Seq<u8>>::empty());
        assert(reconstruct(runs.push(r), diffs, next, pos) =~= copy_window(next, pos, r));
        assert(reconstruct(runs, diffs, next, pos) =~= Seq::<Seq<u8>>::empty());
    } else if diffs.len() > 0 {
        assert(runs.push(r).skip(1) =~= runs.skip(1).push(r));
        lemma_reconstruct_push_run(runs.skip(1), diffs.skip(1), next, pos + runs[0] + 1, r);
        assert(sum_runs(runs) == runs[0] + sum_runs(runs.skip(1)));
        assert(reconstruct(runs.push(r), diffs, next, pos) =~= reconstruct(runs, diffs, next, pos)
            + copy_window(next, pos + sum_runs(runs) + diffs.len(), r));
    } else {
        assert(runs.push(r).skip(1) =~= runs.skip(1).push(r));
        lemma_reconstruct_push_run(runs.skip(1), diffs, next, pos + runs[0], r);
        assert(sum_runs(runs) == runs[0] + sum_runs(runs.skip(1)));
        assert(reconstruct(runs.push(r), diffs, next, pos) =~= reconstruct(runs, diffs, next, pos)
            + copy_window(next, pos + sum_runs(runs) + diffs.len(), r));
    }
}

/// Appending a run together with a differing hash appends the run's copy
/// window and that hash to the reconstruction.
proof fn lemma_reconstruct_push_pair(
    runs: Seq<int>,
    diffs: Seq<Seq<u8>>,
    next: Seq<Seq<u8>>,
    pos: int,
    r: int,
    d: Seq<u8>,
)
    requires
        runs.len() == diffs.len(),
    ensures
        reconstruct(runs.push(r), diffs.push(d), next, pos) == reconstruct(runs, diffs, next, pos)
            + copy_window(next, pos + sum_runs(runs) + diffs.len(), r) + seq![d],
    decreases runs.len(),
{
    if runs.len() == 0 {
        assert(runs.push(r)[0] == r);
        assert(diffs.push(d)[0] == d);
        assert(runs.push(r).skip(1) =~= Seq::<int>::empty());
        assert(diffs.push(d).skip(1) =~= Seq::<Seq<u8>>::empty());
        assert(reconstruct(runs.push(r).skip(1), diffs.push(d).skip(1), next, pos + r + 1)
            =~= Seq::<Seq<u8>>::empty());
        assert(reconstruct(runs.push(r), diffs.push(d), next, pos) =~= copy_window(next, pos, r)
            + seq![d]);
        assert(reconstruct(runs, diffs, next, pos) =~= Seq::<Seq<u8>>::empty());
    } else {
        assert(runs.push(r).skip(1) =~= runs.skip(1).push(r));
        assert(diffs.push(d).skip(1) =~= diffs.skip(1).push(d));
        lemma_reconstruct_push_pair(runs.skip(1), diffs.skip(1), next, pos + runs[0] + 1, r, d);
        assert(sum_runs(runs) == runs[0] + sum_runs(runs.skip(1)));
        assert(reconstruct(runs.push(r), diffs.push(d), next, pos) =~= reconstruct(
            runs,
            diffs,
            next,
            pos,
        ) + copy_window(next, pos + sum_runs(runs) + diffs.len(), r) + seq![d]);
    }
}

/// Differing hashes beyond the last run never enter the reconstruction.
proof fn lemma_reconstruct_extra_diffs(
    runs: Seq<int>,
    diffs: Seq<Seq<u8>>,
    next: Seq<Seq<u8>>,
    pos: int,
)
    requires
        runs.len() <= diffs.len(),
    ensures
        reconstruct(runs, diffs, next, pos) == reconstruct(
            runs,
            diffs.take(runs.len() as int),
            next,
            pos,
        ),
    decreases runs.len(),
{
    if runs.len() == 0 {
        assert(diffs.take(0) =~= Seq::<Seq<u8>>::empty());
    } else {
        lemma_reconstruct_extra_diffs(runs.skip(1), diffs.skip(1), next, pos + runs[0] + 1);
        assert(diffs.take(runs.len() as int).skip(1) =~= diffs.skip(1).take(runs.len() - 1));
        assert(diffs.take(runs.len() as int)[0] == diffs[0]);
        assert(reconstruct(runs, diffs, next, pos) =~= reconstruct(
            runs,
            diffs.take(runs.len() as int),
            next,
            pos,
        ));
    }
}

proof fn lemma_diff_rec_reconstruct(new: Seq<Seq<u8>>, prev: Seq<Seq<u8>>, i: int, run: int)
    requires
        0 <= run <= i <= prev.len(),
        run > 0 ==> i <= new.len(),
        forall|j: int| i - run <= j < i ==> new[j] == prev[j],
    ensures
        reconstruct(diff_rec(new, prev, i, run).0, diff_rec(new, prev, i, run).1, new, i - run)
            == prev.subrange(i - run, prev.len() as int),
    decreases prev.len() - i,
{
    let rd = diff_rec(new, prev, i, run);
    if i >= prev.len() {
        if run > 0 {
            assert(rd.0 == seq![run] && rd.1 == Seq::<Seq<u8>>::empty());
            assert(rd.0[0] == run);
            assert(rd.0.skip(1) =~= Seq::<int>::empty());
            assert(reconstruct(rd.0.skip(1), rd.1, new, i) =~= Seq::<Seq<u8>>::empty());
            assert(copy_window(new, i - run, run) =~= new.subrange(i - run, i));
            assert(new.subrange(i - run, i) =~= prev.subrange(i - run, prev.len() as int));
            assert(reconstruct(rd.0, rd.1, new, i - run) =~= prev.subrange(
                i - run,
                prev.len() as int,
            ));
        } else {
            assert(reconstruct(rd.0, rd.1, new, i - run) =~= prev.subrange(
                i - run,
                prev.len() as int,
            ));
        }
    } else if i < new.len() && new[i] == prev[i] {
        lemma_diff_rec_reconstruct(new, prev, i + 1, run + 1);
    } else {
        lemma_diff_rec_reconstruct(new, prev, i + 1, 0);
        let rest = diff_rec(new, prev, i + 1, 0);
        assert((seq![run] + rest.0).skip(1) =~= rest.0);
        assert((seq![prev[i]] + rest.1).skip(1) =~= rest.1);
        assert((seq![run] + rest.0)[0] == run);
        assert((seq![prev[i]] + rest.1)[0] == prev[i]);
        assert(copy_window(new, i - run, run) =~= prev.subrange(i - run, i));
        assert(reconstruct(rd.0, rd.1, new, i - run) == copy_window(new, i - run, run) + seq![
            prev[i],
        ] + reconstruct(rest.0, rest.1, new, i + 1));
        assert(reconstruct(rd.0, rd.1, new, i - run) =~= prev.subrange(i - run, prev.len() as int));
    }
}

/// The delta law: reconstructing the canonical delta of `prev` against
/// `new` over the successor `new` yields `prev` again, for every pair of
/// hash sequences.
pub proof fn lemma_delta_reconstruct(new: Seq<Seq<u8>>, prev: Seq<Seq<u8>>)
    ensures
        reconstruct(diff_runs(new, prev), diff_diffs(new, prev), new, 0) == prev,
{
    lemma_diff_rec_reconstruct(new, prev, 0, 0);
    assert(prev.subrange(0, prev.len() as int) =~= prev);
}


impl PrevBlob {
    /// Builds the canonical reverse delta of `prev` against `current`.
    #[verifier::loop_isolation(false)]
    pub fn from_diff(current: &Blob, prev: &Blob) -> (r: PrevBlob)
        ensures
            r@.runs == diff_runs(current@.hashes, prev@.hashes),
            r@.diffs == diff_diffs(current@.hashes, prev@.hashes),
            r@.timestamp == prev@.timestamp,
            r@.diffs.len() <= r@.runs.len() <= r@.diffs.len() + 1,
            prev@.wf() ==> r@.wf(),
    {
        let ghost ch = current@.hashes;
        let ghost ph = prev@.hashes;
        let mut same_chunks_lengths: Vec<usize> = Vec::new();
        let mut diff_chunks: Vec<HashValue> = Vec::new();
        let mut current_same_run: usize = 0;
        let mut i: usize = 0;
        while i < prev.chunk_hashes.len()
            invariant
                i <= ph.len(),
                current_same_run <= i,
                same_chunks_lengths@.len() == diff_chunks@.len(),
                diff_rec(ch, ph, 0, 0).0 == runs_view(same_chunks_lengths@) + diff_rec(
                    ch,
                    ph,
                    i as int,
                    current_same_run as int,
                ).0,
                diff_rec(ch, ph, 0, 0).1 == diff_chunks.deep_view() + diff_rec(
                    ch,
                    ph,
                    i as int,
                    current_same_run as int,
                ).1,
                prev@.wf() ==> forall|k: int|
                    0 <= k < diff_chunks@.len() ==> (#[trigger] diff_chunks@[k]@).len() == 32,
            decreases ph.len() - i,
        {
            if i < current.chunk_hashes.len() && current.chunk_hashes[i] == prev.chunk_hashes[i] {
                proof {
                    assert(ch[i as int] == ph[i as int]);
                    assert(diff_rec(ch, ph, i as int, current_same_run as int) == diff_rec(
                        ch,
                        ph,
                        i + 1,
                        current_same_run + 1,
                    ));
                }
                current_same_run = current_same_run + 1;
            } else {
                proof {
                    assert(!(i < ch.len() && ch[i as int] == ph[i as int]));
                }
                let ghost runs_before = runs_view(same_chunks_lengths@);
                let ghost diffs_before = diff_chunks.deep_view();
                same_chunks_lengths.push(current_same_run);
                diff_chunks.push(prev.chunk_hashes[i].clone());
                proof {
                    let rest = diff_rec(ch, ph, i + 1, 0);
                    assert(diff_rec(ch, ph, i as int, current_same_run as int).0 == seq![
                        current_same_run as int,
                    ] + rest.0);
                    assert(diff_rec(ch, ph, i as int, current_same_run as int).1 == seq![
                        ph[i as int],
                    ] + rest.1);
                    assert(runs_view(same_chunks_lengths@) =~= runs_before.push(
                        current_same_run as int,
                    ));
                    assert(diff_chunks.deep_view() =~= diffs_before.push(ph[i as int]));
                    assert(runs_before + (seq![current_same_run as int] + rest.0) =~= runs_view(
                        same_chunks_lengths@,
                    ) + rest.0);
                    assert(diffs_before + (seq![ph[i as int]] + rest.1) =~= diff_chunks.deep_view()
                        + rest.1);
                }
                current_same_run = 0;
            }
            i = i + 1;
        }
        if current_same_run > 0 {
            let ghost runs_before = runs_view(same_chunks_lengths@);
            same_chunks_lengths.push(current_same_run);
            proof {
                assert(diff_rec(ch, ph, i as int, current_same_run as int).0 == seq![
                    current_same_run as int,
                ]);
                assert(runs_view(same_chunks_lengths@) =~= runs_before.push(
                    current_same_run as int,
                ));
                assert(runs_before + seq![current_same_run as int] =~= runs_view(
                    same_chunks_lengths@,
                ));
                assert(diff_rec(ch, ph, 0, 0).0 =~= runs_view(same_chunks_lengths@));
            }
        } else {
            proof {
                assert(diff_rec(ch, ph, i as int, 0).0 =~= Seq::<int>::empty());
                assert(diff_rec(ch, ph, 0, 0).0 =~= runs_view(same_chunks_lengths@));
            }
        }
        proof {
            assert(diff_rec(ch, ph, i as int, current_same_run as int).1
                =~= Seq::<Seq<u8>>::empty());
            assert(diff_rec(ch, ph, 0, 0).1 =~= diff_chunks.deep_view());
        }
        let r = PrevBlob { same_chunks_lengths, diff_chunks, timestamp: prev.timestamp };
        proof {
            assert(r@.runs.len() == r.same_chunks_lengths@.len());
            assert(r@.diffs.len() == r.diff_chunks@.len());
            assert(r@.diffs.len() <= r@.runs.len() <= r@.diffs.len() + 1);
            assert(r@.runs.len() <= usize::MAX) by {
                assert(r.same_chunks_lengths.len() == r.same_chunks_lengths@.len());
            }
            assert(r@.diffs.len() <= usize::MAX) by {
                assert(r.diff_chunks.len() == r.diff_chunks@.len());
            }
            assert(i64::MIN <= r@.timestamp <= i64::MAX);
            if prev@.wf() {
                assert forall|k: int| 0 <= k < r@.diffs.len() implies (#[trigger] r@.diffs[k]).len()
                    == 32 by {
                    assert(r@.diffs[k] == r.diff_chunks@[k]@);
                }
                assert forall|k: int| 0 <= k < r@.runs.len() implies 0 <= #[trigger] r@.runs[k]
                    <= usize::MAX by {
                    assert(r@.runs[k] == r.same_chunks_lengths@[k] as int);
                }
                assert(r@.wf());
            }
        }
        r
    }

    /// Reconstructs the prior snapshot from this delta and its successor.
    #[verifier::loop_isolation(false)]
    pub fn compute(&self, next_version: &Blob) -> (r: Blob)
        ensures
            r@.hashes == reconstruct(self@.runs, self@.diffs, next_version@.hashes, 0),
            r@.timestamp == self@.timestamp,
    {
        let ghost rv = self@.runs;
        let ghost dv = self@.diffs;
        let ghost nv = next_version@.hashes;
        let next_len = next_version.chunk_hashes.len();
        let mut out: Vec<HashValue> = Vec::new();
        let mut pos: usize = 0;
        let ghost mut pos_real: int = 0;
        let mut k: usize = 0;
        while k < self.same_chunks_lengths.len()
            invariant
                k <= rv.len(),
                pos <= next_len,
                pos as int == clampi(pos_real, 0, nv.len() as int),
                0 <= pos_real,
                pos_real == sum_runs(rv.take(k as int)) + min_int(k as int, dv.len() as int),
                out.deep_view() == reconstruct(
                    rv.take(k as int),
                    dv.take(min_int(k as int, dv.len() as int)),
                    nv,
                    0,
                ),
            decreases rv.len() - k,
        {
            let ghost pos_real_before = pos_real;
            let ghost pos_before = pos;
            let ghost out_at_entry = out.deep_view();
            let run = self.same_chunks_lengths[k];
            let avail = if next_len - pos < run {
                next_len - pos
            } else {
                run
            };
            let mut c: usize = 0;
            while c < avail
                invariant
                    c <= avail,
                    pos + avail <= next_len,
                    out.deep_view() =~= out_at_entry + nv.subrange(pos as int, pos + c),
                decreases avail - c,
            {
                out.push(next_version.chunk_hashes[pos + c].clone());
                assert(out.deep_view() =~= out_at_entry + nv.subrange(pos as int, pos + c + 1));
                c = c + 1;
            }
            proof {
                assert(copy_window(nv, pos_real_before, run as int) =~= nv.subrange(
                    pos as int,
                    pos + avail,
                ));
                pos_real = pos_real + run;
            }
            pos = pos + avail;
            let ghost out_after_copy = out.deep_view();
            if k < self.diff_chunks.len() {
                out.push(self.diff_chunks[k].clone());
                proof {
                    assert(out.deep_view() =~= out_after_copy.push(dv[k as int]));
                    pos_real = pos_real + 1;
                }
                if pos < next_len {
                    pos = pos + 1;
                }
            }
            proof {
                let ki = k as int;
                assert(rv[ki] == self.same_chunks_lengths@[ki] as int);
                assert(rv.take(ki + 1) =~= rv.take(ki).push(rv[ki]));
                lemma_sum_push(rv.take(ki), rv[ki]);
                if ki < dv.len() {
                    assert(dv.take(ki + 1) =~= dv.take(ki).push(dv[ki]));
                    lemma_reconstruct_push_pair(rv.take(ki), dv.take(ki), nv, 0, rv[ki], dv[ki]);
                    assert(out.deep_view() =~= reconstruct(
                        rv.take(ki + 1),
                        dv.take(min_int(ki + 1, dv.len() as int)),
                        nv,
                        0,
                    ));
                } else {
                    assert(dv.take(min_int(ki, dv.len() as int)) =~= dv);
                    lemma_reconstruct_push_run(rv.take(ki), dv, nv, 0, rv[ki]);
                    assert(out.deep_view() =~= reconstruct(
                        rv.take(ki + 1),
                        dv.take(min_int(ki + 1, dv.len() as int)),
                        nv,
                        0,
                    ));
                }
            }
            k = k + 1;
        }
        proof {
            assert(rv.take(rv.len() as int) =~= rv);
            if dv.len() > rv.len() {
                lemma_reconstruct_extra_diffs(rv, dv, nv, 0);
                assert(dv.take(min_int(rv.len() as int, dv.len() as int)) =~= dv.take(
                    rv.len() as int,
                ));
            } else {
                assert(dv.take(min_int(rv.len() as int, dv.len() as int)) =~= dv);
            }
        }
        Blob { chunk_hashes: out, timestamp: self.timestamp }
    }
}

/// The blob reached by undoing the deltas `history[k..]`, newest first,
/// starting from `current`; index 0 is the oldest retained version.
pub open spec fn version_spec(current: BlobModel, history: Seq<PrevBlobModel>, k: int) -> BlobModel
    decreases history.len() - k,
{
    if k < 0 || k >= history.len() {
        current
    } else {
        let succ = version_spec(current, history, k + 1);
        BlobModel {
            hashes: reconstruct(history[k].runs, history[k].diffs, succ.hashes, 0),
            timestamp: history[k].timestamp,
        }
    }
}

/// Pointwise description of the deep view of a delta vector.
pub broadcast proof fn lemma_prev_vec_deep_view(v: Vec<PrevBlob>)
    ensures
        (#[trigger] v.deep_view()).len() == v@.len(),
        forall|j: int| 0 <= j < v@.len() ==> #[trigger] v.deep_view()[j] == v@[j]@,
        forall|j: int| 0 <= j < v@.len() ==> v.deep_view()[j] == #[trigger] (v@[j]@),
{
    assert forall|j: int| 0 <= j < v@.len() implies #[trigger] v.deep_view()[j] == v@[j]@ by {
        assert(v.deep_view()[j] == v@[j].deep_view());
    }
}

impl Document {
    /// Starts a manifest at its first snapshot, with empty history.
    pub fn new(blob: Blob) -> (r: Document)
        ensures
            r@.current == blob@,
            r@.history =~= Seq::<PrevBlobModel>::empty(),
    {
        proof {
            broadcast use lemma_prev_vec_deep_view;
        }
        Document { current: blob, history: Vec::new() }
    }

    /// The newest snapshot.
    pub fn current(&self) -> (r: &Blob)
        ensures
            r@ == self@.current,
    {
        &self.current
    }

    /// Publishes `new_blob` as the newest snapshot: the snapshot it
    /// replaces is pushed onto the history as the canonical reverse delta
    /// against `new_blob`.
    pub fn update(&mut self, new_blob: Blob)
        requires
            new_blob@.no_placeholder(),
        ensures
            final(self)@.current == new_blob@,
            final(self)@.history == old(self)@.history.push(
                PrevBlobModel {
                    runs: diff_runs(new_blob@.hashes, old(self)@.current.hashes),
                    diffs: diff_diffs(new_blob@.hashes, old(self)@.current.hashes),
                    timestamp: old(self)@.current.timestamp,
                },
            ),
    {
        proof {
            broadcast use lemma_prev_vec_deep_view;
        }
        let prev_blob = PrevBlob::from_diff(&new_blob, &self.current);
        self.history.push(prev_blob);
        self.current = new_blob;
        assert(self@.history =~~= old(self)@.history.push(
            PrevBlobModel {
                runs: diff_runs(self@.current.hashes, old(self)@.current.hashes),
                diffs: diff_diffs(self@.current.hashes, old(self)@.current.hashes),
                timestamp: old(self)@.current.timestamp,
            },
        ));
    }

    /// The retained prior versions as deltas, newest-older first.
    pub fn versions(&self) -> (r: Vec<PrevBlob>)
        ensures
            r.deep_view().len() == self@.history.len(),
            forall|i: int|
                0 <= i < r.deep_view().len()
                    ==> #[trigger] r.deep_view()[i] == self@.history[self@.history.len() - 1 - i],
    {
        proof {
            broadcast use lemma_prev_vec_deep_view;
        }
        let mut out: Vec<PrevBlob> = Vec::new();
        let mut j: usize = self.history.len();
        while j > 0
            invariant
                j <= self.history@.len(),
                out@.len() == self.history@.len() - j,
                forall|i: int|
                    0 <= i < out@.len() ==> #[trigger] out@[i]@ == self@.history[self@.history.len()
                        - 1 - i],
            decreases j,
        {
            j = j - 1;
            out.push(self.history[j].clone());
        }
        proof {
            broadcast use lemma_prev_vec_deep_view;
        }
        out
    }

    /// Reconstructs retained version `k` (0 = oldest) by undoing the
    /// deltas from the newest backwards; `None` past the history's end.
    #[verifier::loop_isolation(false)]
    pub fn get_version(&self, k: usize) -> (r: Option<Blob>)
        ensures
            k < self@.history.len() ==> (r matches Some(b) && b@ == version_spec(
                self@.current,
                self@.history,
                k as int,
            )),
            k >= self@.history.len() ==> r is None,
    {
        proof {
            broadcast use lemma_prev_vec_deep_view;
        }
        if k >= self.history.len() {
            return None;
        }
        let mut blob = self.current.clone();
        let mut j: usize = self.history.len();
        while j > k
            invariant
                k <= j <= self@.history.len(),
                blob@ == version_spec(self@.current, self@.history, j as int),
            decreases j,
        {
            j = j - 1;
            blob = self.history[j].compute(&blob);
            assert(self@.history[j as int] == self.history@[j as int]@);
        }
        Some(blob)
    }
}

} // verus!
