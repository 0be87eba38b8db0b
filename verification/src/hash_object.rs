//! Hashing the content of a file as a blob, and storing it on request.

use crate::error::Error;
use crate::object::{blob_record, Object};
use crate::repository::{written, Repository};
use crate::storage::{part_of, MogStorage};
use crate::store::blob_encode_and_hash;
use vstd::prelude::*;

verus! {

/// What hashing the blob `data` answers: `StoreFull` where the blob store
/// has no room for it; where its record is to be written as well,
/// `StoreFull` where the storage does not take the record, else what the
/// storage answers to the flush of its queue with the record behind it.
pub open spec fn hash_object_answer<S: MogStorage>(repo: &Repository<S>, data: Seq<u8>, write: bool) -> Result<
    (),
    Error,
> {
    let record = blob_record(data);
    if !repo.stores.blob.has_room(data.len()) {
        Err(Error::StoreFull)
    } else if !write {
        Ok(())
    } else if !repo.storage.accepts(record.len()) {
        Err(Error::StoreFull)
    } else {
        repo.storage.shows(
            crate::storage::pending_after(
                &repo.storage,
                seq![(crate::hash::blake3_digest(record), record)],
            ),
        )
    }
}

/// The hash of the blob `data`. The blob enters the blob store; with
/// `write` its record is written and flushed as well. A blob store or a
/// storage without room is `StoreFull`; a table without a free bucket is
/// `HashTableFull`.
pub fn hash_object<S: MogStorage>(repo: &mut Repository<S>, data: &[u8], write: bool) -> (r: Result<
    crate::hash::Hash,
    Error,
>)
    requires
        old(repo).wf(),
    ensures
        final(repo).wf(),
        part_of(old(repo).storage.visible(), final(repo).storage.visible()),
        match r {
            Ok(h) => hash_object_answer(old(repo), data@, write) is Ok && h == crate::hash::blake3_digest(blob_record(data@)) && final(repo).stores.blob@
                == old(repo).stores.blob@.push(data@) && (write ==> final(repo).storage.visible().contains_key(h)
                && final(repo).storage.visible() == crate::storage::flushed_after(
                &old(repo).storage,
                seq![(h, blob_record(data@))],
            ) && final(repo).storage.pending() == Seq::<crate::storage::Pair>::empty()) && (!write
                ==> final(repo).storage == old(repo).storage),
            Err(e) => {
                let room = old(repo).stores.blob.has_room(data@.len());
                &&& e == Error::StoreFull || e == Error::HashTableFull
                &&& hash_object_answer(old(repo), data@, write) == Err::<(), Error>(e)
                &&& !room ==> final(repo).stores == old(repo).stores && final(repo).storage == old(repo).storage
                &&& room ==> final(repo).stores.blob@ == old(repo).stores.blob@.push(data@)
                &&& room && !old(repo).storage.accepts(blob_record(data@).len()) ==> final(repo).storage == old(repo).storage
            },
        },
{
    if !repo.stores.blob.can_push(data.len()) {
        proof {
            assert(part_of(repo.storage.visible(), repo.storage.visible()));
        }
        return Err(Error::StoreFull);
    }
    let id = repo.stores.blob.push(data);
    if write {
        let ghost before = repo.storage.visible();
        let hash = match repo.try_write_object(Object::Blob(id)) {
            Ok(h) => h,
            Err(e) => {
                assert(part_of(repo.storage.visible(), repo.storage.visible()));
                return Err(e);
            },
        };
        let ghost mid = repo.storage.visible();
        let ghost queue = repo.storage.pending();
        proof {
            crate::storage::lemma_one(before, old(repo).storage.pending(), (hash, blob_record(data@)));
        }
        match repo.storage.flush() {
            Ok(()) => {
                proof {
                    crate::repository::lemma_submap_trans(
                        repo.object_cache.map(),
                        mid,
                        repo.storage.visible(),
                    );
                    crate::repository::lemma_submap_trans(before, mid, repo.storage.visible());
                    lemma_written_then_flushed(before, old(repo).storage.pending(), hash, blob_record(data@), old(repo).storage.buffers());
                }
                Ok(hash)
            },
            Err(e) => {
                proof {
                    crate::repository::lemma_submap_trans(
                        repo.object_cache.map(),
                        mid,
                        repo.storage.visible(),
                    );
                    crate::repository::lemma_submap_trans(before, mid, repo.storage.visible());
                }
                Err(e)
            },
        }
    } else {
        let mut buf: Vec<u8> = Vec::new();
        let hash = blob_encode_and_hash(&repo.stores.blob, id, &mut buf);
        assert(part_of(repo.storage.visible(), repo.storage.visible()));
        Ok(hash)
    }
}

/// What was written is visible once it is flushed.
pub proof fn lemma_written_then_flushed(
    visible: Map<crate::hash::Hash, Seq<u8>>,
    pending: Seq<crate::storage::Pair>,
    h: crate::hash::Hash,
    d: Seq<u8>,
    buffers: bool,
)
    ensures
        buffers ==> crate::storage::put_all(
            visible,
            crate::storage::queued(visible, pending, (h, d)),
        ).contains_key(h),
        !buffers ==> crate::storage::put_all(crate::storage::put(visible, h, d), pending).contains_key(
            h,
        ),
{
    if buffers {
        if !crate::storage::put_all(visible, pending).contains_key(h) {
            assert(pending.push((h, d)).drop_last() =~= pending);
        }
    } else {
        crate::storage::lemma_put_all_keeps(crate::storage::put(visible, h, d), pending, h);
    }
}

} // verus!
