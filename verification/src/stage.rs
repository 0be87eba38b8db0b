//! Staging: which files are read at all, how they are grouped into batches,
//! and how a batch of hashed files enters the object database and the
//! index.

use crate::error::Error;
use crate::index::{
    added, index_paths, mode_of, paths_distinct, removed, takes_entry, FileMeta, FileStat, Index,
    IndexEntryView,
};
use crate::object::{blob_record, encode_blob_and_hash};
use crate::repository::Repository;
use crate::storage::{pairs, part_of, put_all, MogStorage, PendingStorageWrite};
use vstd::prelude::*;
use vstd::string::StringSliceAdditionalSpecFns;
use vstd::utf8::encode_utf8;

verus! {

/// The most bytes of files that are hashed in one batch: 1 MiB.
pub const STAGE_BATCH_MAX_BYTES: u64 = 1048576;

/// The most bytes that a file may have to be staged: 1 MiB.
pub const STAGE_MAX_FILE_BYTES: u64 = 1048576;

/// What happens to a candidate file.
#[derive(Debug, Clone, Copy, PartialEq, Eq, Structural)]
pub enum StageDecision {
    /// The file is over the size limit and is refused.
    TooLarge,
    /// The index has the file with this modification time and size: it is
    /// neither read nor hashed.
    Unchanged,
    /// The file is read, hashed and staged.
    Stage,
}

/// What happens to a candidate file with this path and stat data.
pub open spec fn stage_decision(index: Seq<IndexEntryView>, path: Seq<u8>, meta: FileMeta) -> StageDecision {
    if meta.size > STAGE_MAX_FILE_BYTES {
        StageDecision::TooLarge
    } else if exists|i: int|
        0 <= i < index.len() && (#[trigger] index[i]).path == path && index[i].mtime == meta.mtime
            && index[i].size == meta.size {
        StageDecision::Unchanged
    } else {
        StageDecision::Stage
    }
}

/// Decides what happens to a candidate file, from its stat data alone.
pub fn needs_staging(index: &Index, rel: &str, meta: &FileMeta) -> (r: StageDecision)
    requires
        index.wf(),
    ensures
        r == stage_decision(index@, rel.spec_bytes(), *meta),
{
    if meta.size > STAGE_MAX_FILE_BYTES {
        return StageDecision::TooLarge;
    }
    match index.find(rel) {
        Some(i) => {
            if !index.is_dirty(i, meta) {
                assert(index@[i as int].path == rel.spec_bytes());
                StageDecision::Unchanged
            } else {
                proof {
                    index.lemma_columns();
                    assert forall|j: int|
                        0 <= j < index@.len() && (#[trigger] index@[j]).path
                            == rel.spec_bytes() implies j == i by {
                        if j < i {
                            assert(index_paths(index@)[j] != index_paths(index@)[i as int]);
                        } else if i < j {
                            assert(index_paths(index@)[i as int] != index_paths(index@)[j]);
                        }
                    }
                }
                StageDecision::Stage
            }
        },
        None => StageDecision::Stage,
    }
}

/// The positions of all batches, in order.
pub open spec fn flat(bs: Seq<Seq<usize>>) -> Seq<usize>
    decreases bs.len(),
{
    if bs.len() == 0 {
        Seq::empty()
    } else {
        flat(bs.drop_last()) + bs.last()
    }
}

/// The bytes of the files of a batch.
pub open spec fn batch_bytes(sizes: Seq<u64>, b: Seq<usize>) -> int
    decreases b.len(),
{
    if b.len() == 0 {
        0
    } else {
        batch_bytes(sizes, b.drop_last()) + sizes[b.last() as int]
    }
}

/// Whether `bs` are the batches of files of these sizes: the files in
/// order, none left out; no batch over the limit; and no batch but the
/// first empty, each opened only because its first file did not fit the
/// batch before.
pub open spec fn is_batching(sizes: Seq<u64>, bs: Seq<Seq<usize>>) -> bool {
    &&& bs.len() >= 1
    &&& flat(bs) == crate::sort::iota(sizes.len())
    &&& forall|b: int| 0 <= b < bs.len() ==> batch_bytes(sizes, #[trigger] bs[b]) <= STAGE_BATCH_MAX_BYTES
    &&& forall|b: int|
        1 <= b < bs.len() ==> (#[trigger] bs[b]).len() > 0 && batch_bytes(sizes, bs[b - 1])
            + sizes[bs[b][0] as int] > STAGE_BATCH_MAX_BYTES
}

/// The views of the batches.
pub open spec fn batch_views(bs: Seq<Vec<usize>>) -> Seq<Seq<usize>> {
    Seq::new(bs.len(), |i: int| bs[i]@)
}

/// Splits files of these sizes into batches of at most
/// `STAGE_BATCH_MAX_BYTES` bytes, in order: a file opens a new batch where
/// it does not fit the current one.
pub fn plan_batches(sizes: &[u64]) -> (batches: Vec<Vec<usize>>)
    requires
        forall|i: int| 0 <= i < sizes@.len() ==> #[trigger] sizes@[i] <= STAGE_MAX_FILE_BYTES,
    ensures
        is_batching(sizes@, batch_views(batches@)),
{
    let n = sizes.len();
    let mut done: Vec<Vec<usize>> = Vec::new();
    let mut cur: Vec<usize> = Vec::new();
    let mut cur_bytes: u64 = 0;
    let mut i: usize = 0;
    proof {
        assert(flat(batch_views(done@)) + cur@ =~= crate::sort::iota(0));
    }
    while i < n
        invariant
            i <= n,
            n == sizes@.len(),
            forall|k: int| 0 <= k < sizes@.len() ==> #[trigger] sizes@[k] <= STAGE_MAX_FILE_BYTES,
            cur_bytes == batch_bytes(sizes@, cur@),
            cur_bytes <= STAGE_BATCH_MAX_BYTES,
            flat(batch_views(done@)) + cur@ == crate::sort::iota(i as nat),
            forall|b: int|
                0 <= b < done@.len() ==> batch_bytes(sizes@, (#[trigger] done@[b])@)
                    <= STAGE_BATCH_MAX_BYTES,
            forall|b: int|
                1 <= b < done@.len() ==> (#[trigger] done@[b])@.len() > 0 && batch_bytes(
                    sizes@,
                    done@[b - 1]@,
                ) + sizes@[done@[b]@[0] as int] > STAGE_BATCH_MAX_BYTES,
            done@.len() > 0 ==> cur@.len() > 0 && batch_bytes(sizes@, done@[done@.len() - 1]@)
                + sizes@[cur@[0] as int] > STAGE_BATCH_MAX_BYTES,
            forall|k: int| 0 <= k < cur@.len() ==> (#[trigger] cur@[k]) < n,
        decreases n - i,
    {
        let size = sizes[i];
        if cur_bytes + size > STAGE_BATCH_MAX_BYTES && cur.len() > 0 {
            let ghost before = batch_views(done@);
            let ghost full = cur@;
            done.push(cur);
            cur = Vec::new();
            cur_bytes = 0;
            proof {
                assert(batch_views(done@).drop_last() =~= before);
                assert(batch_views(done@).last() == full);
                assert(flat(batch_views(done@)) + cur@ =~= flat(before) + full);
                assert(batch_bytes(sizes@, cur@) == 0);
            }
        }
        let ghost prev = cur@;
        cur.push(i);
        proof {
            assert(cur@.drop_last() =~= prev);
            assert(cur@.last() == i);
            assert(batch_bytes(sizes@, cur@) == batch_bytes(sizes@, prev) + sizes@[i as int]);
            assert(cur@[0] == if prev.len() == 0 { i } else { prev[0] });
            assert(flat(batch_views(done@)) + cur@ =~= (flat(batch_views(done@)) + prev).push(i));
            assert(crate::sort::iota((i + 1) as nat) =~= crate::sort::iota(i as nat).push(i));
        }
        cur_bytes = cur_bytes + size;
        i += 1;
    }
    let ghost before = batch_views(done@);
    let ghost last = cur@;
    done.push(cur);
    proof {
        let bs = batch_views(done@);
        assert(bs.drop_last() =~= before);
        assert(bs.last() == last);
        assert forall|b: int| 0 <= b < bs.len() implies batch_bytes(sizes@, #[trigger] bs[b])
            <= STAGE_BATCH_MAX_BYTES by {
            if b < before.len() {
                assert(bs[b] == done@[b]@);
            }
        }
        assert forall|b: int| 1 <= b < bs.len() implies (#[trigger] bs[b]).len() > 0
            && batch_bytes(sizes@, bs[b - 1]) + sizes@[bs[b][0] as int]
            > STAGE_BATCH_MAX_BYTES by {
            assert(bs[b] == done@[b]@);
            assert(bs[b - 1] == done@[b - 1]@);
        }
    }
    done
}

/// A file that was read, encoded and hashed.
pub struct ProcessedBlob {
    pub encoded: Vec<u8>,
    pub hash: crate::hash::Hash,
}

/// Encodes the content of a file as a blob and hashes the record.
pub fn process_file(data: &[u8]) -> (p: ProcessedBlob)
    ensures
        p.encoded@ == blob_record(data@),
        p.hash == crate::hash::blake3_digest(blob_record(data@)),
{
    let mut encoded: Vec<u8> = Vec::new();
    let hash = encode_blob_and_hash(data, &mut encoded);
    ProcessedBlob { encoded, hash }
}

/// The entries `s` with the entry `e` staged: in the place of the entry
/// with its path, or behind all entries.
pub open spec fn with_entry(s: Seq<IndexEntryView>, e: IndexEntryView) -> Seq<IndexEntryView> {
    if exists|i: int| 0 <= i < s.len() && (#[trigger] s[i]).path == e.path {
        s.update(choose|i: int| 0 <= i < s.len() && (#[trigger] s[i]).path == e.path, e)
    } else {
        s.push(e)
    }
}

/// The entries `s` with the entries `es` staged one after the other.
pub open spec fn with_entries(s: Seq<IndexEntryView>, es: Seq<IndexEntryView>) -> Seq<IndexEntryView>
    decreases es.len(),
{
    if es.len() == 0 {
        s
    } else {
        with_entry(with_entries(s, es.drop_last()), es.last())
    }
}

/// The entries `s` without the entry of the path `p`.
pub open spec fn without_path(s: Seq<IndexEntryView>, p: Seq<u8>) -> Seq<IndexEntryView> {
    if exists|i: int| 0 <= i < s.len() && (#[trigger] s[i]).path == p {
        s.remove(choose|i: int| 0 <= i < s.len() && (#[trigger] s[i]).path == p)
    } else {
        s
    }
}

/// The entries `s` without the entries of the paths `ps`, removed one
/// after the other.
pub open spec fn without_paths(s: Seq<IndexEntryView>, ps: Seq<Seq<u8>>) -> Seq<IndexEntryView>
    decreases ps.len(),
{
    if ps.len() == 0 {
        s
    } else {
        without_path(without_paths(s, ps.drop_last()), ps.last())
    }
}

/// Among entries with distinct paths, what adding an entry gives is
/// determined.
pub proof fn lemma_added(old: Seq<IndexEntryView>, e: IndexEntryView, new: Seq<IndexEntryView>)
    requires
        paths_distinct(index_paths(old)),
        added(old, e, new),
    ensures
        new == with_entry(old, e),
{
    if exists|i: int| 0 <= i < old.len() && (#[trigger] old[i]).path == e.path {
        let i = choose|i: int|
            0 <= i < old.len() && (#[trigger] old[i]).path == e.path && new == old.update(i, e);
        let c = choose|i: int| 0 <= i < old.len() && (#[trigger] old[i]).path == e.path;
        if i < c {
            assert(index_paths(old)[i] != index_paths(old)[c]);
        } else if c < i {
            assert(index_paths(old)[c] != index_paths(old)[i]);
        }
    }
}

/// Among entries with distinct paths, what removing a path gives is
/// determined.
pub proof fn lemma_removed(old: Seq<IndexEntryView>, p: Seq<u8>, new: Seq<IndexEntryView>, r: bool)
    requires
        paths_distinct(index_paths(old)),
        removed(old, p, new, r),
    ensures
        new == without_path(old, p),
        r == exists|i: int| 0 <= i < old.len() && (#[trigger] old[i]).path == p,
{
    if exists|i: int| 0 <= i < old.len() && (#[trigger] old[i]).path == p {
        let i = choose|i: int|
            0 <= i < old.len() && (#[trigger] old[i]).path == p && new == old.remove(i);
        let c = choose|i: int| 0 <= i < old.len() && (#[trigger] old[i]).path == p;
        if i < c {
            assert(index_paths(old)[i] != index_paths(old)[c]);
        } else if c < i {
            assert(index_paths(old)[c] != index_paths(old)[i]);
        }
    }
}

/// The entries that staging these files makes.
pub open spec fn staged_entries(
    paths: Seq<String>,
    metas: Seq<FileMeta>,
    records: Seq<PendingStorageWrite>,
) -> Seq<IndexEntryView> {
    Seq::new(
        paths.len(),
        |i: int|
            IndexEntryView {
                mode: mode_of(metas[i].executable),
                hash: records[i].hash,
                mtime: metas[i].mtime,
                size: metas[i].size,
                path: encode_utf8(paths[i]@),
            },
    )
}

/// Whether the entries `s`, with the first `j` entries of `es` staged, take
/// the next one.
pub open spec fn takes_at(s: Seq<IndexEntryView>, es: Seq<IndexEntryView>, j: int) -> bool {
    takes_entry(with_entries(s, es.take(j)), es[j].path)
}

/// Whether the first `k` entries of `es` can be staged into `s` one after
/// the other.
#[verifier::opaque]
pub open spec fn takes_entries(s: Seq<IndexEntryView>, es: Seq<IndexEntryView>, k: int) -> bool {
    forall|j: int| 0 <= j < k ==> #[trigger] takes_at(s, es, j)
}

/// No entries can always be staged, and one more can where the entries
/// with those before it staged take it.
pub proof fn lemma_takes_entries(s: Seq<IndexEntryView>, es: Seq<IndexEntryView>, k: int)
    ensures
        takes_entries(s, es, 0),
        k >= 0 ==> (takes_entries(s, es, k + 1) <==> takes_entries(s, es, k) && takes_at(s, es, k)),
{
    reveal(takes_entries);
}

/// Entries that can be staged can be staged up to each of them.
pub proof fn lemma_takes_fewer(s: Seq<IndexEntryView>, es: Seq<IndexEntryView>, k: int, n: int)
    requires
        takes_entries(s, es, n),
        k <= n,
    ensures
        takes_entries(s, es, k),
{
    reveal(takes_entries);
}

/// Brings a batch of hashed files into the repository: writes the records
/// in one go, then stages each file with its hash and stat data. File `i`
/// has the path `paths[i]`, the stat data `metas[i]` and the record
/// `records[i]`. An error of the storage leaves the index as it was. Where
/// the index has no room for a file, the files before it are staged and the
/// error is `StoreFull`.
pub fn flush_batch<S: MogStorage>(
    repo: &mut Repository<S>,
    index: &mut Index,
    paths: &[String],
    metas: &[FileMeta],
    records: &[PendingStorageWrite],
) -> (r: Result<(), Error>)
    requires
        old(repo).wf(),
        old(index).wf(),
        paths@.len() == metas@.len(),
        paths@.len() == records@.len(),
    ensures
        final(repo).wf(),
        final(index).wf(),
        final(repo).stores == old(repo).stores,
        final(repo).object_cache == old(repo).object_cache,
        part_of(old(repo).storage.visible(), final(repo).storage.visible()),
        final(repo).storage.pending() == old(repo).storage.pending(),
        r is Ok <==> paths@.len() == 0 || (old(repo).storage.shows(pairs(records@)) is Ok
            && takes_entries(
            old(index)@,
            staged_entries(paths@, metas@, records@),
            paths@.len() as int,
        )),
        match r {
            Ok(_) => final(repo).storage.visible() == put_all(
                old(repo).storage.visible(),
                pairs(records@),
            ) && final(index)@ == with_entries(
                old(index)@,
                staged_entries(paths@, metas@, records@),
            ),
            Err(e) => match old(repo).storage.shows(pairs(records@)) {
                Err(x) => e == x && final(index)@ == old(index)@,
                Ok(_) => e == Error::StoreFull && paths@.len() > 0 && exists|k: int|
                    0 <= k < paths@.len() && #[trigger] takes_entries(
                        old(index)@,
                        staged_entries(paths@, metas@, records@),
                        k,
                    ) && !takes_entry(final(index)@, encode_utf8(paths@[k]@)) && final(index)@
                        == with_entries(
                        old(index)@,
                        staged_entries(paths@, metas@, records@).take(k),
                    ),
            },
        },
{
    if paths.len() == 0 {
        assert(pairs(records@) =~= Seq::empty());
        return Ok(());
    }
    match repo.storage.write_batch(records) {
        Ok(()) => {},
        Err(e) => {
            proof {
                crate::repository::lemma_submap_trans(
                    repo.object_cache.map(),
                    old(repo).storage.visible(),
                    repo.storage.visible(),
                );
            }
            return Err(e);
        },
    }
    proof {
        crate::repository::lemma_submap_trans(
            repo.object_cache.map(),
            old(repo).storage.visible(),
            repo.storage.visible(),
        );
    }
    let r = stage_batch(index, paths, metas, records);
    proof {
        let es = staged_entries(paths@, metas@, records@);
        if r is Err {
            let k = choose|k: int|
                0 <= k < paths@.len() && #[trigger] takes_entries(old(index)@, es, k) && !takes_entry(
                    index@,
                    encode_utf8(paths@[k]@),
                ) && index@ == with_entries(old(index)@, es.take(k));
            lemma_takes_entries(old(index)@, es, k);
            if takes_entries(old(index)@, es, paths@.len() as int) {
                lemma_takes_fewer(old(index)@, es, k + 1, paths@.len() as int);
            }
        }
    }
    r
}

/// Stages each file of a batch with its hash and stat data, up to the
/// first one for which the index has no room.
fn stage_batch(index: &mut Index, paths: &[String], metas: &[FileMeta], records: &[PendingStorageWrite]) -> (r:
    Result<(), Error>)
    requires
        old(index).wf(),
        paths@.len() == metas@.len(),
        paths@.len() == records@.len(),
    ensures
        final(index).wf(),
        match r {
            Ok(_) => takes_entries(
                old(index)@,
                staged_entries(paths@, metas@, records@),
                paths@.len() as int,
            ) && final(index)@ == with_entries(
                old(index)@,
                staged_entries(paths@, metas@, records@),
            ),
            Err(e) => e == Error::StoreFull && exists|k: int|
                0 <= k < paths@.len() && #[trigger] takes_entries(
                    old(index)@,
                    staged_entries(paths@, metas@, records@),
                    k,
                ) && !takes_entry(final(index)@, encode_utf8(paths@[k]@)) && final(index)@
                    == with_entries(old(index)@, staged_entries(paths@, metas@, records@).take(k)),
        },
{
    let ghost es = staged_entries(paths@, metas@, records@);
    let n = paths.len();
    let mut i: usize = 0;
    assert(es.take(0) =~= Seq::<IndexEntryView>::empty());
    proof {
        lemma_takes_entries(old(index)@, es, 0);
    }
    while i < n
        invariant
            i <= n,
            n == paths@.len(),
            n == metas@.len(),
            n == records@.len(),
            es == staged_entries(paths@, metas@, records@),
            index.wf(),
            index@ == with_entries(old(index)@, es.take(i as int)),
            takes_entries(old(index)@, es, i as int),
        decreases n - i,
    {
        let path = paths[i].as_str();
        if !index.can_add(path) {
            return Err(Error::StoreFull);
        }
        proof {
            lemma_takes_entries(old(index)@, es, i as int);
        }
        let ghost before = index@;
        proof {
            index.lemma_columns();
        }
        index.add(path, records[i].hash, &metas[i]);
        proof {
            lemma_flush_step(old(index)@, es, i as int, before, index@);
        }
        i += 1;
    }
    assert(es.take(n as int) =~= es);
    Ok(())
}

/// One more file of a batch staged.
pub proof fn lemma_flush_step(
    start: Seq<IndexEntryView>,
    es: Seq<IndexEntryView>,
    i: int,
    before: Seq<IndexEntryView>,
    after: Seq<IndexEntryView>,
)
    requires
        0 <= i < es.len(),
        before == with_entries(start, es.take(i)),
        paths_distinct(index_paths(before)),
        added(before, es[i], after),
    ensures
        after == with_entries(start, es.take(i + 1)),
{
    lemma_added(before, es[i], after);
    assert(es.take(i + 1).drop_last() =~= es.take(i));
    assert(es.take(i + 1).last() == es[i]);
}

/// Staging an entry among entries with distinct paths leaves the paths
/// distinct.
pub proof fn lemma_with_entry_distinct(s: Seq<IndexEntryView>, e: IndexEntryView)
    requires
        paths_distinct(index_paths(s)),
    ensures
        paths_distinct(index_paths(with_entry(s, e))),
{
    let t = with_entry(s, e);
    assert forall|i: int, j: int| 0 <= i < j < index_paths(t).len() implies index_paths(t)[i]
        != index_paths(t)[j] by {
        if exists|c: int| 0 <= c < s.len() && (#[trigger] s[c]).path == e.path {
            let c = choose|c: int| 0 <= c < s.len() && (#[trigger] s[c]).path == e.path;
            assert(index_paths(s)[i] != index_paths(s)[j]);
            assert(t[i].path == s[i].path);
            assert(t[j].path == s[j].path);
        } else {
            if j < s.len() {
                assert(index_paths(s)[i] != index_paths(s)[j]);
            } else {
                assert(s[i].path != e.path);
            }
        }
    }
}

/// Staging entries among entries with distinct paths leaves the paths
/// distinct.
pub proof fn lemma_with_entries_distinct(s: Seq<IndexEntryView>, es: Seq<IndexEntryView>)
    requires
        paths_distinct(index_paths(s)),
    ensures
        paths_distinct(index_paths(with_entries(s, es))),
    decreases es.len(),
{
    if es.len() > 0 {
        lemma_with_entries_distinct(s, es.drop_last());
        lemma_with_entry_distinct(with_entries(s, es.drop_last()), es.last());
    }
}

/// Removing a path from entries with distinct paths leaves the paths
/// distinct.
pub proof fn lemma_without_path_distinct(s: Seq<IndexEntryView>, p: Seq<u8>)
    requires
        paths_distinct(index_paths(s)),
    ensures
        paths_distinct(index_paths(without_path(s, p))),
{
    let t = without_path(s, p);
    if exists|c: int| 0 <= c < s.len() && (#[trigger] s[c]).path == p {
        let c = choose|c: int| 0 <= c < s.len() && (#[trigger] s[c]).path == p;
        assert forall|i: int, j: int| 0 <= i < j < index_paths(t).len() implies index_paths(t)[i]
            != index_paths(t)[j] by {
            let i0 = if i < c { i } else { i + 1 };
            let j0 = if j < c { j } else { j + 1 };
            assert(index_paths(s)[i0] != index_paths(s)[j0]);
        }
    }
}

/// How many of the paths `ps` are staged when their turn comes, where they
/// are removed from `s` one after the other.
pub open spec fn staged_among(s: Seq<IndexEntryView>, ps: Seq<Seq<u8>>) -> nat
    decreases ps.len(),
{
    if ps.len() == 0 {
        0
    } else {
        let before = without_paths(s, ps.drop_last());
        staged_among(s, ps.drop_last()) + if exists|i: int|
            0 <= i < before.len() && (#[trigger] before[i]).path == ps.last() {
            1nat
        } else {
            0nat
        }
    }
}

/// Removes the entries of these paths from the index, one after the
/// other, and returns how many of them were staged.
pub fn unstage_paths(index: &mut Index, paths: &[String]) -> (count: usize)
    requires
        old(index).wf(),
    ensures
        final(index).wf(),
        final(index)@ == without_paths(old(index)@, crate::status::bytes_of(paths@)),
        count == staged_among(old(index)@, crate::status::bytes_of(paths@)),
{
    let ghost ps = crate::status::bytes_of(paths@);
    let n = paths.len();
    let mut count: usize = 0;
    let mut i: usize = 0;
    assert(ps.take(0) =~= Seq::<Seq<u8>>::empty());
    while i < n
        invariant
            i <= n,
            count <= i,
            n == paths@.len(),
            ps == crate::status::bytes_of(paths@),
            index.wf(),
            index@ == without_paths(old(index)@, ps.take(i as int)),
            count == staged_among(old(index)@, ps.take(i as int)),
        decreases n - i,
    {
        let ghost before = index@;
        proof {
            index.lemma_columns();
        }
        let removed_now = index.remove(paths[i].as_str());
        proof {
            lemma_removed(before, ps[i as int], index@, removed_now);
            assert(ps.take(i + 1).drop_last() =~= ps.take(i as int));
            assert(ps.take(i + 1).last() == ps[i as int]);
        }
        if removed_now {
            count += 1;
        }
        i += 1;
    }
    assert(ps.take(n as int) =~= ps);
    count
}

/// The paths of the entries whose file is gone: `present[i]` says whether
/// the file behind entry `i` is on disk.
pub fn missing_paths(index: &Index, present: &[bool]) -> (gone: Vec<String>)
    requires
        index.arrays_ok(),
        present@.len() == index@.len(),
    ensures
        crate::status::bytes_of(gone@) == crate::status::selected(
            index_paths(index@),
            Seq::new(present@.len(), |i: int| !present@[i]),
        ),
{
    let ghost paths = index_paths(index@);
    let ghost flags = Seq::new(present@.len(), |i: int| !present@[i]);
    let n = index.count;
    let mut gone: Vec<String> = Vec::new();
    let mut i: usize = 0;
    proof {
        crate::status::lemma_selected_none(paths.take(0), flags.take(0));
    }
    while i < n
        invariant
            i <= n,
            n == index@.len(),
            n == present@.len(),
            index.arrays_ok(),
            paths == index_paths(index@),
            flags == Seq::new(present@.len(), |i: int| !present@[i]),
            crate::status::bytes_of(gone@) == crate::status::selected(
                paths.take(i as int),
                flags.take(i as int),
            ),
        decreases n - i,
    {
        proof {
            crate::status::lemma_selected_step(paths, flags, i as int);
        }
        if !present[i] {
            let path = index.get_path(i);
            let ghost prev = gone@;
            gone.push(path.to_owned());
            assert(crate::status::bytes_of(gone@) =~= crate::status::bytes_of(prev).push(
                path.spec_bytes(),
            ));
        }
        i += 1;
    }
    proof {
        assert(paths.take(n as int) =~= paths);
        assert(flags.take(n as int) =~= flags);
    }
    gone
}

} // verus!
