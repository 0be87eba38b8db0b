//! An object database in memory: nothing on disk, nothing buffered.

use crate::error::Error;
use crate::storage::{
    distinct, find_record, lemma_put_all_absent, lemma_put_all_first, lemma_put_all_len, pairs,
    put_all, MogStorage, Pair, PendingStorageWrite,
};

use vstd::prelude::*;
use vstd::slice::slice_to_vec;

verus! {

/// An in-memory object store. Every write is visible at once.
pub struct MockStorage {
    objects: Vec<PendingStorageWrite>,
}

impl MockStorage {
    /// The objects, in the order in which they were first written.
    pub closed spec fn records(&self) -> Seq<(crate::hash::Hash, Seq<u8>)> {
        pairs(self.objects@)
    }

    /// A record whose hash no earlier record has is what the store shows
    /// under that hash.
    proof fn lemma_found(&self, hash: crate::hash::Hash, i: int)
        requires
            0 <= i < self.objects@.len(),
            self.objects@[i].hash == hash,
            forall|k: int| 0 <= k < i ==> (#[trigger] self.objects@[k]).hash != hash,
        ensures
            self.visible().contains_key(hash),
            self.visible()[hash] == self.objects@[i].data@,
    {
        let s = self.records();
        assert(s[i].0 == hash);
        assert forall|k: int| 0 <= k < i implies (#[trigger] s[k]).0 != hash by {
            assert(self.objects@[k].hash != hash);
        }
        lemma_put_all_first(Map::empty(), s, hash, i);
    }

    /// A hash that no record has is not in the store.
    proof fn lemma_missing(&self, hash: crate::hash::Hash)
        requires
            forall|k: int| 0 <= k < self.objects@.len() ==> (#[trigger] self.objects@[k]).hash != hash,
        ensures
            !self.visible().contains_key(hash),
    {
        let s = self.records();
        assert forall|k: int| 0 <= k < s.len() implies (#[trigger] s[k]).0 != hash by {
            assert(self.objects@[k].hash != hash);
        }
        lemma_put_all_absent(Map::empty(), s, hash);
    }

    /// An empty store.
    pub fn new() -> (s: Self)
        ensures
            s.wf(),
            s.visible() == Map::<crate::hash::Hash, Seq<u8>>::empty(),
    {
        let s = MockStorage { objects: Vec::new() };
        assert(s.records() =~= Seq::empty());
        s
    }

    /// The number of objects stored.
    pub fn object_count(&self) -> (n: usize)
        requires
            self.wf(),
        ensures
            self.visible().dom().finite(),
            n == self.visible().dom().len(),
    {
        proof {
            lemma_put_all_len(self.records());
        }
        self.objects.len()
    }

    /// Nothing to do: the store maps no pages.
    pub fn evict_pages(_data: &[u8]) {
    }
}

impl MogStorage for MockStorage {
    closed spec fn wf(&self) -> bool {
        distinct(self.records())
    }

    closed spec fn visible(&self) -> Map<crate::hash::Hash, Seq<u8>> {
        put_all(Map::empty(), self.records())
    }

    open spec fn pending(&self) -> Seq<Pair> {
        Seq::empty()
    }

    open spec fn buffers(&self) -> bool {
        false
    }

    open spec fn accepts(&self, n: nat) -> bool {
        true
    }

    open spec fn shows(&self, ws: Seq<Pair>) -> Result<(), Error> {
        Ok(())
    }

    fn can_accept(&self, n: usize) -> (r: bool) {
        true
    }

    fn contains(&self, hash: &crate::hash::Hash) -> (r: bool) {
        match find_record(&self.objects, hash) {
            Some(i) => {
                proof {
                    self.lemma_found(*hash, i as int);
                }
                true
            },
            None => {
                proof {
                    self.lemma_missing(*hash);
                }
                false
            },
        }
    }

    fn read<'a>(&'a self, hash: &crate::hash::Hash) -> (r: Result<&'a [u8], Error>) {
        match find_record(&self.objects, hash) {
            Some(i) => {
                proof {
                    self.lemma_found(*hash, i as int);
                }
                Ok(self.objects[i].data.as_slice())
            },
            None => {
                proof {
                    self.lemma_missing(*hash);
                }
                Err(Error::NotFound)
            },
        }
    }

    fn write(&mut self, hash: crate::hash::Hash, data: Vec<u8>) {
        match find_record(&self.objects, &hash) {
            Some(i) => {
                proof {
                    self.lemma_found(hash, i as int);
                }
            },
            None => {
                let ghost before = self.records();
                proof {
                    self.lemma_missing(hash);
                }
                let ghost d = data@;
                self.objects.push(PendingStorageWrite { hash, data });
                proof {
                    let after = self.records();
                    assert(after.drop_last() =~= before);
                    assert(after.last() == (hash, d));
                    assert forall|i: int, j: int| 0 <= i < j < after.len() implies after[i].0
                        != after[j].0 by {
                        if j < before.len() {
                            assert(before[i].0 != before[j].0);
                        } else {
                            assert(before[i].0 == after[i].0);
                            assert(old(self).objects@[i].hash != hash);
                        }
                    }
                }
            },
        }
    }

    fn write_batch(&mut self, writes: &[PendingStorageWrite]) -> (r: Result<(), Error>) {
        let ghost all = pairs(writes@);
        assert(all.take(0) =~= Seq::<Pair>::empty());
        let n = writes.len();
        let mut i: usize = 0;
        while i < n
            invariant
                self.wf(),
                i <= n,
                n == writes@.len(),
                all == pairs(writes@),
                self.visible() == put_all(old(self).visible(), all.take(i as int)),
            decreases n - i,
        {
            assert(all.take(i + 1).drop_last() =~= all.take(i as int));
            assert(all.take(i + 1).last() == (writes@[i as int].hash, writes@[i as int].data@));
            self.write(writes[i].hash, slice_to_vec(writes[i].data.as_slice()));
            i += 1;
        }
        proof {
            assert(all.take(n as int) =~= all);
            crate::storage::lemma_put_all_extends(old(self).visible(), all);
        }
        Ok(())
    }

    fn flush(&mut self) -> (r: Result<(), Error>) {
        Ok(())
    }

    fn sync(&mut self) -> (r: Result<(), Error>) {
        Ok(())
    }
}

} // verus!
