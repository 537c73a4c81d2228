//! Adapter logic for a changed-block source: translating device-native
//! "changed region" events into the chunk indices that must be re-read,
//! and a bounded window that suppresses repeated indices.
use vstd::prelude::*;

use crate::CHUNK_SIZE;

verus! {

/// The chunk indices overlapping the byte range `[start, start + len)`:
/// `[first, last)` with `first` the covering chunk of the first byte and
/// `last` the first chunk past the range. An empty range maps to an
/// empty index range.
pub open spec fn chunk_span(start: int, len: int) -> (int, int) {
    if len <= 0 {
        (start / (CHUNK_SIZE as int), start / (CHUNK_SIZE as int))
    } else {
        (start / (CHUNK_SIZE as int), (start + len - 1) / (CHUNK_SIZE as int) + 1)
    }
}

/// Translates a changed region, given in device blocks, to the range of
/// chunk indices that must be re-ingested.
pub fn chunks_for_region(start_block: u64, block_count: u64, block_size: u64) -> (r: (u64, u64))
    requires
        block_size >= 1,
        start_block * block_size + block_count * block_size <= u64::MAX,
    ensures
        (r.0 as int, r.1 as int) == chunk_span(
            start_block as int * block_size as int,
            block_count as int * block_size as int,
        ),
        r.0 <= r.1,
{
    proof {
        assert(start_block as int * block_size as int >= 0 && block_count as int
            * block_size as int >= 0) by (nonlinear_arith);
        assert(start_block as int * block_size as int + block_count as int * block_size as int
            <= u64::MAX) by (nonlinear_arith)
            requires
                start_block * block_size + block_count * block_size <= u64::MAX,
        ;
    }
    let start: u64 = start_block * block_size;
    let len: u64 = block_count * block_size;
    let first: u64 = start / (CHUNK_SIZE as u64);
    if len == 0 {
        (first, first)
    } else {
        let last: u64 = (start + (len - 1)) / (CHUNK_SIZE as u64) + 1;
        proof {
            assert(first as int <= (start + (len - 1)) as int / (CHUNK_SIZE as int))
                by (nonlinear_arith)
                requires
                    len >= 1,
                    first as int == start as int / (CHUNK_SIZE as int),
                    CHUNK_SIZE >= 1,
            ;
        }
        (first, last)
    }
}

/// A bounded first-in-first-out window of recently seen chunk indices;
/// membership is approximate on purpose: once an index falls out of the
/// window it is reported as unseen again.
pub struct RecentWindow {
    pub entries: Vec<u64>,
    pub capacity: usize,
}

impl View for RecentWindow {
    type V = Seq<u64>;

    open spec fn view(&self) -> Seq<u64> {
        self.entries@
    }
}

impl RecentWindow {
    pub open spec fn wf(&self) -> bool {
        &&& self.capacity >= 1
        &&& self.entries@.len() <= self.capacity
    }

    /// An empty window holding at most `capacity` indices.
    pub fn new(capacity: usize) -> (r: RecentWindow)
        requires
            capacity >= 1,
        ensures
            r@ =~= Seq::<u64>::empty(),
            r.wf(),
            r.capacity == capacity,
    {
        RecentWindow { entries: Vec::new(), capacity }
    }

    /// Whether the index is still in the window.
    pub fn contains(&self, idx: u64) -> (r: bool)
        ensures
            r == self@.contains(idx),
    {
        let mut i: usize = 0;
        while i < self.entries.len()
            invariant
                i <= self.entries@.len(),
                forall|j: int| 0 <= j < i ==> self.entries@[j] != idx,
            decreases self.entries@.len() - i,
        {
            if self.entries[i] == idx {
                return true;
            }
            i = i + 1;
        }
        false
    }

    /// Records the index, evicting the oldest entry once full.
    pub fn record(&mut self, idx: u64)
        requires
            old(self).wf(),
        ensures
            final(self).wf(),
            final(self).capacity == old(self).capacity,
            final(self)@ == if old(self)@.len() < old(self).capacity {
                old(self)@.push(idx)
            } else {
                old(self)@.skip(1).push(idx)
            },
    {
        if self.entries.len() >= self.capacity {
            let ghost pre = self.entries@;
            let _ = self.entries.remove(0);
            proof {
                assert(self.entries@ =~= pre.skip(1));
            }
        }
        self.entries.push(idx);
    }
}

} // verus!
