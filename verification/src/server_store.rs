//! A plain in-memory key-to-bytes store with a verified map view; it
//! stands in for a remote object store in tests and sequential runs.
use vstd::prelude::*;

use crate::hash_value::{bytes_eq, copy_bytes};

verus! {

/// The exec entries as a sequence of (key, value) byte strings.
pub open spec fn entries_view(s: Seq<(Vec<u8>, Vec<u8>)>) -> Seq<(Seq<u8>, Seq<u8>)> {
    s.map_values(|p: (Vec<u8>, Vec<u8>)| (p.0@, p.1@))
}

/// The map that an entry sequence denotes; a later entry for the same key
/// would win, but well-formed stores keep keys distinct.
pub open spec fn entries_map(s: Seq<(Seq<u8>, Seq<u8>)>) -> Map<Seq<u8>, Seq<u8>>
    decreases s.len(),
{
    if s.len() == 0 {
        Map::empty()
    } else {
        entries_map(s.drop_last()).insert(s.last().0, s.last().1)
    }
}

/// No two entries share a key.
pub open spec fn keys_distinct(s: Seq<(Seq<u8>, Seq<u8>)>) -> bool {
    forall|i: int, j: int| 0 <= i < j < s.len() ==> (#[trigger] s[i]).0 != (#[trigger] s[j]).0
}

/// The denoted map's domain holds exactly the entry keys, and it is
/// finite.
pub proof fn lemma_entries_map_dom(s: Seq<(Seq<u8>, Seq<u8>)>)
    ensures
        entries_map(s).dom().finite(),
        forall|k: Seq<u8>|
            #[trigger] entries_map(s).dom().contains(k) <==> exists|i: int|
                0 <= i < s.len() && (#[trigger] s[i]).0 == k,
    decreases s.len(),
{
    if s.len() == 0 {
    } else {
        lemma_entries_map_dom(s.drop_last());
        assert forall|k: Seq<u8>| #[trigger] entries_map(s).dom().contains(k) implies exists|i: int|
            0 <= i < s.len() && (#[trigger] s[i]).0 == k by {
            if k == s.last().0 {
                assert((s[s.len() - 1]).0 == k);
            } else {
                let i = choose|i: int| 0 <= i < s.drop_last().len() && (#[trigger] s.drop_last()[i]).0 == k;
                assert((s[i]).0 == k);
            }
        }
        assert forall|k: Seq<u8>| (exists|i: int| 0 <= i < s.len() && (#[trigger] s[i]).0 == k)
            implies #[trigger] entries_map(s).dom().contains(k) by {
            let i = choose|i: int| 0 <= i < s.len() && (#[trigger] s[i]).0 == k;
            if i < s.len() - 1 {
                assert(s.drop_last()[i].0 == k);
            }
        }
    }
}

/// With distinct keys, the denoted map sends each entry's key to that
/// entry's value.
pub proof fn lemma_entries_map_at(s: Seq<(Seq<u8>, Seq<u8>)>, i: int)
    requires
        keys_distinct(s),
        0 <= i < s.len(),
    ensures
        entries_map(s).dom().contains(s[i].0),
        entries_map(s)[s[i].0] == s[i].1,
    decreases s.len(),
{
    if i == s.len() - 1 {
    } else {
        assert(keys_distinct(s.drop_last()));
        assert(s.drop_last()[i] == s[i]);
        lemma_entries_map_at(s.drop_last(), i);
        assert(s[i].0 != s.last().0);
    }
}

/// Removing the entry at `i` removes exactly its key from the map.
pub proof fn lemma_entries_map_remove(s: Seq<(Seq<u8>, Seq<u8>)>, i: int)
    requires
        keys_distinct(s),
        0 <= i < s.len(),
    ensures
        entries_map(s.remove(i)) == entries_map(s).remove(s[i].0),
    decreases s.len(),
{
    lemma_entries_map_dom(s.drop_last());
    if i == s.len() - 1 {
        assert(s.remove(i) =~= s.drop_last());
        assert(!entries_map(s.drop_last()).dom().contains(s[i].0));
        assert(entries_map(s.remove(i)) =~= entries_map(s).remove(s[i].0));
    } else {
        assert(keys_distinct(s.drop_last()));
        assert(s.drop_last()[i] == s[i]);
        lemma_entries_map_remove(s.drop_last(), i);
        assert(s.remove(i).drop_last() =~= s.drop_last().remove(i));
        assert(s.remove(i).last() == s.last());
        assert(s[i].0 != s.last().0);
        assert(entries_map(s.remove(i)) =~= entries_map(s).remove(s[i].0));
    }
}

/// A process-local key-to-bytes store.
#[derive(Debug)]
pub struct InMemoryStorage {
    pub entries: Vec<(Vec<u8>, Vec<u8>)>,
}

impl View for InMemoryStorage {
    type V = Map<Seq<u8>, Seq<u8>>;

    open spec fn view(&self) -> Map<Seq<u8>, Seq<u8>> {
        entries_map(entries_view(self.entries@))
    }
}

impl InMemoryStorage {
    /// The store keeps one entry per key.
    pub open spec fn wf(&self) -> bool {
        keys_distinct(entries_view(self.entries@))
    }

    /// An empty store.
    pub fn new() -> (r: InMemoryStorage)
        ensures
            r@ =~= Map::<Seq<u8>, Seq<u8>>::empty(),
            r.wf(),
    {
        let r = InMemoryStorage { entries: Vec::new() };
        assert(entries_view(r.entries@) =~= Seq::<(Seq<u8>, Seq<u8>)>::empty());
        r
    }

    /// The index of the entry holding `key`, if one does.
    fn find_key(&self, key: &[u8]) -> (r: Option<usize>)
        ensures
            match r {
                Some(i) => i < self.entries@.len() && entries_view(self.entries@)[i as int].0
                    == key@,
                None => forall|i: int|
                    0 <= i < self.entries@.len() ==> (#[trigger] entries_view(self.entries@)[i]).0
                        != key@,
            },
    {
        let mut i: usize = 0;
        while i < self.entries.len()
            invariant
                i <= self.entries@.len(),
                forall|j: int|
                    0 <= j < i ==> (#[trigger] entries_view(self.entries@)[j]).0 != key@,
            decreases self.entries@.len() - i,
        {
            if bytes_eq(self.entries[i].0.as_slice(), key) {
                assert(entries_view(self.entries@)[i as int].0 == key@);
                return Some(i);
            }
            assert(entries_view(self.entries@)[i as int].0 != key@);
            i = i + 1;
        }
        None
    }

    /// Whether the store holds `key`.
    pub fn has(&self, key: &[u8]) -> (r: bool)
        ensures
            r == self@.dom().contains(key@),
    {
        proof {
            lemma_entries_map_dom(entries_view(self.entries@));
        }
        match self.find_key(key) {
            Some(i) => {
                assert(entries_view(self.entries@)[i as int].0 == key@);
                true
            },
            None => false,
        }
    }

    /// The bytes stored under `key`, if any.
    pub fn get(&self, key: &[u8]) -> (r: Option<Vec<u8>>)
        requires
            self.wf(),
        ensures
            match r {
                Some(v) => self@.dom().contains(key@) && v@ == self@[key@],
                None => !self@.dom().contains(key@),
            },
    {
        proof {
            lemma_entries_map_dom(entries_view(self.entries@));
        }
        match self.find_key(key) {
            Some(i) => {
                proof {
                    lemma_entries_map_at(entries_view(self.entries@), i as int);
                }
                Some(copy_bytes(self.entries[i].1.as_slice()))
            },
            None => None,
        }
    }

    /// Stores `value` under `key`, replacing any prior value.
    pub fn put(&mut self, key: &[u8], value: &[u8])
        requires
            old(self).wf(),
        ensures
            final(self)@ == old(self)@.insert(key@, value@),
            final(self).wf(),
    {
        match self.find_key(key) {
            Some(i) => {
                proof {
                    lemma_entries_map_remove(entries_view(self.entries@), i as int);
                }
                let ghost pre = entries_view(self.entries@);
                let _ = self.entries.remove(i);
                proof {
                    assert(entries_view(self.entries@) =~= pre.remove(i as int));
                    assert forall|q: int| 0 <= q < entries_view(self.entries@).len() implies (
                    #[trigger] entries_view(self.entries@)[q]).0 != key@ by {
                        if q < i {
                            assert(entries_view(self.entries@)[q] == pre[q]);
                        } else {
                            assert(entries_view(self.entries@)[q] == pre[q + 1]);
                        }
                    }
                    assert(keys_distinct(entries_view(self.entries@)));
                }
            },
            None => {
            },
        }
        let ghost mid = entries_view(self.entries@);
        let ghost mid_map = self@;
        self.entries.push((copy_bytes(key), copy_bytes(value)));
        proof {
            assert(entries_view(self.entries@).drop_last() =~= mid);
            assert(entries_view(self.entries@).last() == (key@, value@));
            assert(self@ == mid_map.insert(key@, value@));
            assert(final(self)@ =~= old(self)@.insert(key@, value@));
            lemma_entries_map_dom(mid);
            assert forall|i: int, j: int|
                0 <= i < j < entries_view(self.entries@).len() implies (#[trigger] entries_view(
                self.entries@,
            )[i]).0 != (#[trigger] entries_view(self.entries@)[j]).0 by {
                assert(entries_view(self.entries@)[i] == mid[i]);
                if j < entries_view(self.entries@).len() - 1 {
                    assert(entries_view(self.entries@)[j] == mid[j]);
                }
            }
        }
    }

    /// Removes `key` if present.
    pub fn remove(&mut self, key: &[u8])
        requires
            old(self).wf(),
        ensures
            final(self)@ == old(self)@.remove(key@),
            final(self).wf(),
    {
        proof {
            lemma_entries_map_dom(entries_view(self.entries@));
        }
        match self.find_key(key) {
            Some(i) => {
                proof {
                    lemma_entries_map_remove(entries_view(self.entries@), i as int);
                }
                let ghost pre = entries_view(self.entries@);
                let _ = self.entries.remove(i);
                proof {
                    assert(entries_view(self.entries@) =~= pre.remove(i as int));
                }
            },
            None => {
                proof {
                    assert(!self@.dom().contains(key@));
                    assert(self@ =~= self@.remove(key@));
                }
            },
        }
    }

    /// All keys currently stored, in entry order.
    pub fn list_keys(&self) -> (r: Vec<Vec<u8>>)
        ensures
            r@.len() == self.entries@.len(),
            forall|i: int|
                0 <= i < r@.len() ==> #[trigger] r@[i]@ == entries_view(self.entries@)[i].0,
    {
        let mut out: Vec<Vec<u8>> = Vec::new();
        let mut i: usize = 0;
        while i < self.entries.len()
            invariant
                i <= self.entries@.len(),
                out@.len() == i,
                forall|j: int|
                    0 <= j < i ==> #[trigger] out@[j]@ == entries_view(self.entries@)[j].0,
            decreases self.entries@.len() - i,
        {
            out.push(copy_bytes(self.entries[i].0.as_slice()));
            i = i + 1;
        }
        out
    }

    /// The number of stored objects.
    pub fn object_count(&self) -> (r: usize)
        ensures
            r == self.entries@.len(),
    {
        self.entries.len()
    }
}

} // verus!
