//! A small first-in, first-out cache of encoded objects, bounded by the
//! total number of bytes it holds.

use crate::storage::{
    distinct, find_record, lemma_put_all_absent, lemma_put_all_first, pairs, put_all, Pair,
    PendingStorageWrite,
};
use crate::storage::part_of;
use vstd::prelude::*;

verus! {

/// The most bytes that the cache holds: 1 MiB.
pub const CACHE_MAX_BYTES: usize = 1048576;

/// The number of bytes that the pairs of `s` hold.
pub open spec fn total(s: Seq<Pair>) -> nat
    decreases s.len(),
{
    if s.len() == 0 {
        0
    } else {
        s[0].1.len() + total(s.skip(1))
    }
}

/// `s` without as many of its oldest pairs as it takes to hold no more
/// than the cache may.
pub open spec fn evict(s: Seq<Pair>) -> Seq<Pair>
    decreases s.len(),
{
    if total(s) <= CACHE_MAX_BYTES {
        s
    } else {
        evict(s.skip(1))
    }
}

/// A pair more at the back is its bytes more in total.
pub proof fn lemma_total_push(s: Seq<Pair>, x: Pair)
    ensures
        total(s.push(x)) == total(s) + x.1.len(),
    decreases s.len(),
{
    let t = s.push(x);
    if s.len() == 0 {
        assert(t.skip(1) =~= Seq::<Pair>::empty());
        assert(total(t.skip(1)) == 0);
        assert(total(t) == t[0].1.len() + total(t.skip(1)));
    } else {
        lemma_total_push(s.skip(1), x);
        assert(t.skip(1) =~= s.skip(1).push(x));
        assert(total(t) == t[0].1.len() + total(t.skip(1)));
        assert(total(s) == s[0].1.len() + total(s.skip(1)));
    }
}

/// A pair that alone is more than the cache may hold empties it.
pub proof fn lemma_evict_oversize(s: Seq<Pair>, x: Pair)
    requires
        x.1.len() > CACHE_MAX_BYTES,
    ensures
        evict(s.push(x)) == Seq::<Pair>::empty(),
    decreases s.len(),
{
    lemma_total_push(s, x);
    let t = s.push(x);
    assert(evict(t) == evict(t.skip(1)));
    if s.len() == 0 {
        assert(t.skip(1) =~= Seq::<Pair>::empty());
        assert(total(t.skip(1)) == 0);
        assert(evict(t.skip(1)) == t.skip(1));
    } else {
        lemma_evict_oversize(s.skip(1), x);
        assert(t.skip(1) =~= s.skip(1).push(x));
    }
}

/// Evicting drops pairs from the front only.
pub proof fn lemma_evict_is_skip(s: Seq<Pair>) -> (k: int)
    ensures
        0 <= k <= s.len(),
        evict(s) == s.skip(k),
    decreases s.len(),
{
    if total(s) <= CACHE_MAX_BYTES {
        assert(s.skip(0) =~= s);
        0
    } else {
        let k = lemma_evict_is_skip(s.skip(1));
        assert(s.skip(1).skip(k) =~= s.skip(k + 1));
        k + 1
    }
}

/// The cache: pairs of hash and encoded bytes, oldest first.
pub struct ObjectCache {
    entries: Vec<PendingStorageWrite>,
    total_bytes: usize,
}

impl ObjectCache {
    /// The pairs in the cache, oldest first.
    pub closed spec fn items(&self) -> Seq<Pair> {
        pairs(self.entries@)
    }

    /// No hash is cached twice, and the cache holds no more bytes than it
    /// may.
    pub closed spec fn wf(&self) -> bool {
        &&& distinct(self.items())
        &&& self.total_bytes == total(self.items())
        &&& self.total_bytes <= CACHE_MAX_BYTES
    }

    /// The cache as a map from hash to bytes.
    pub open spec fn map(&self) -> Map<crate::hash::Hash, Seq<u8>> {
        put_all(Map::empty(), self.items())
    }

    /// An empty cache.
    pub fn new() -> (c: Self)
        ensures
            c.wf(),
            c.items() == Seq::<Pair>::empty(),
    {
        let c = ObjectCache { entries: Vec::new(), total_bytes: 0 };
        assert(c.items() =~= Seq::<Pair>::empty());
        c
    }

    proof fn lemma_found(&self, hash: crate::hash::Hash, i: int)
        requires
            0 <= i < self.entries@.len(),
            self.entries@[i].hash == hash,
            forall|k: int| 0 <= k < i ==> (#[trigger] self.entries@[k]).hash != hash,
        ensures
            self.map().contains_key(hash),
            self.map()[hash] == self.entries@[i].data@,
    {
        let s = self.items();
        assert(s[i].0 == hash);
        assert forall|k: int| 0 <= k < i implies (#[trigger] s[k]).0 != hash by {
            assert(self.entries@[k].hash != hash);
        }
        lemma_put_all_first(Map::empty(), s, hash, i);
    }

    proof fn lemma_missing(&self, hash: crate::hash::Hash)
        requires
            forall|k: int| 0 <= k < self.entries@.len() ==> (#[trigger] self.entries@[k]).hash != hash,
        ensures
            !self.map().contains_key(hash),
    {
        let s = self.items();
        assert forall|k: int| 0 <= k < s.len() implies (#[trigger] s[k]).0 != hash by {
            assert(self.entries@[k].hash != hash);
        }
        lemma_put_all_absent(Map::empty(), s, hash);
    }

    /// The encoded bytes cached under `hash`, if any.
    pub fn get(&self, hash: &crate::hash::Hash) -> (r: Option<&[u8]>)
        ensures
            match r {
                Some(d) => self.map().contains_key(*hash) && d@ == self.map()[*hash],
                None => !self.map().contains_key(*hash),
            },
    {
        match find_record(&self.entries, hash) {
            Some(i) => {
                proof {
                    self.lemma_found(*hash, i as int);
                }
                Some(self.entries[i].data.as_slice())
            },
            None => {
                proof {
                    self.lemma_missing(*hash);
                }
                None
            },
        }
    }

    /// Whether something is cached under `hash`.
    pub fn contains(&self, hash: &crate::hash::Hash) -> (r: bool)
        ensures
            r == self.map().contains_key(*hash),
    {
        self.get(hash).is_some()
    }

    /// Caches `data` under `hash`, unless the hash is cached already, then
    /// drops the oldest pairs until the cache holds no more than it may.
    pub fn insert(&mut self, hash: crate::hash::Hash, data: Vec<u8>)
        requires
            old(self).wf(),
        ensures
            final(self).wf(),
            final(self).items() == if old(self).map().contains_key(hash) {
                old(self).items()
            } else {
                evict(old(self).items().push((hash, data@)))
            },
            part_of(final(self).map(), crate::storage::put(old(self).map(), hash, data@)),
    {
        match find_record(&self.entries, &hash) {
            Some(i) => {
                proof {
                    self.lemma_found(hash, i as int);
                    assert(part_of(self.map(), self.map()));
                }
                return ;
            },
            None => {
                proof {
                    self.lemma_missing(hash);
                }
            },
        }
        let ghost before = self.items();
        let ghost x: Pair = (hash, data@);
        proof {
            let pushed = before.push(x);
            assert(pushed.drop_last() =~= before);
            assert forall|i: int, j: int| 0 <= i < j < pushed.len() implies pushed[i].0
                != pushed[j].0 by {
                if j < before.len() {
                    assert(before[i].0 != before[j].0);
                } else {
                    assert(self.entries@[i].hash != hash);
                }
            }
            let k = lemma_evict_is_skip(pushed);
            crate::storage::lemma_skip_submap(pushed, k);
        }
        if data.len() > CACHE_MAX_BYTES {
            self.entries.clear();
            self.total_bytes = 0;
            proof {
                lemma_evict_oversize(before, x);
                assert(self.items() =~= Seq::<Pair>::empty());
            }
            return ;
        }
        self.total_bytes = self.total_bytes + data.len();
        self.entries.push(PendingStorageWrite { hash, data });
        proof {
            lemma_total_push(before, x);
            assert(self.items() =~= before.push(x));
            assert forall|i: int, j: int| 0 <= i < j < self.items().len() implies self.items()[i].0
                != self.items()[j].0 by {
                if j < before.len() {
                    assert(before[i].0 != before[j].0);
                } else {
                    assert(old(self).entries@[i].hash != hash);
                }
            }
        }
        while self.total_bytes > CACHE_MAX_BYTES
            invariant
                distinct(self.items()),
                self.total_bytes == total(self.items()),
                evict(self.items()) == evict(before.push(x)),
            decreases self.entries@.len(),
        {
            let ghost cur = self.items();
            let e = self.entries.remove(0);
            self.total_bytes = self.total_bytes - e.data.len();
            proof {
                assert(self.items() =~= cur.skip(1));
                assert forall|i: int, j: int|
                    0 <= i < j < self.items().len() implies self.items()[i].0
                    != self.items()[j].0 by {
                    assert(cur[i + 1].0 != cur[j + 1].0);
                }
            }
        }
    }
}

impl Default for ObjectCache {
    fn default() -> (c: Self)
        ensures
            c.wf(),
            c.items() == Seq::<Pair>::empty(),
    {
        ObjectCache::new()
    }
}

} // verus!
