//! What holds of the library as a whole: laws that relate several of its
//! functions, each stated over the specifications of those functions.

use crate::error::Error;
use crate::index::{
    index_bytes, index_ok, index_paths, lemma_index_bytes_injective, paths_distinct, root_hash,
    FileMeta, Index, IndexEntryView,
};
use crate::object::{
    blob_record, lemma_record_injective, object_ok, record, tree_record, Object, ObjectView,
};
use crate::repository::blob_read;
use crate::stage::{stage_decision, with_entry, without_path, StageDecision, STAGE_MAX_FILE_BYTES};
use crate::storage::{
    lemma_one, lemma_put_all_extends, put, put_all, queued, written_all, MogStorage, Pair,
};
use crate::store::{decoded_into, stores_room, stores_view, BlobStore, CommitStore, StoresView, TreeStore};
use crate::tree::{tree_ok, TreeEntryView};
use crate::object::MODE_DIR;
use crate::status::{
    distinct_paths, flat_from, flat_tree, join, looked_up, tree_read, FlatEntry, MAX_TREE_DEPTH,
};
use vstd::prelude::*;

verus! {

/// Round trip of objects: decoding the record of an encodable object into
/// stores with room for it gives a handle under which the stores hold that
/// object, pushed behind what they held.
pub proof fn law_object_round_trip(
    o: ObjectView,
    blob: BlobStore,
    tree: TreeStore,
    commit: CommitStore,
    new: StoresView,
    r: Result<Object, Error>,
)
    requires
        object_ok(o),
        stores_room(blob, tree, commit, o),
        decoded_into(record(o), blob, tree, commit, new, r),
    ensures
        r is Ok,
        stores_view(blob, tree, commit).pushed(o, r->Ok_0, new),
{
    match r {
        Ok(obj) => {
            let x = choose|x: ObjectView|
                #![trigger record(x)]
                object_ok(x) && record(x) == record(o) && stores_room(blob, tree, commit, x)
                    && stores_view(blob, tree, commit).pushed(x, obj, new);
            lemma_record_injective(x, o);
        },
        Err(e) => {
            if e == Error::CorruptObjectDatabase {
                assert(record(o) != record(o));
            } else {
                let x = choose|x: ObjectView|
                    #![trigger record(x)]
                    object_ok(x) && record(x) == record(o) && !stores_room(blob, tree, commit, x);
                lemma_record_injective(x, o);
            }
        },
    }
}

/// Round trip from stores to stores: the record that encoding leaves of an
/// object held in the stores `from`, decoded into stores with room for the
/// object, gives a handle of the same kind under which those stores hold
/// the same object, behind what they held. Without room the answer is
/// `StoreFull`.
pub proof fn law_encode_then_decode(
    from: StoresView,
    obj: Object,
    buf: Seq<u8>,
    blob: BlobStore,
    tree: TreeStore,
    commit: CommitStore,
    new: StoresView,
    r: Result<Object, Error>,
)
    requires
        from.holds(obj),
        object_ok(from.object(obj)),
        buf == record(from.object(obj)),
        decoded_into(buf, blob, tree, commit, new, r),
    ensures
        r is Ok <==> stores_room(blob, tree, commit, from.object(obj)),
        r is Err ==> r->Err_0 == Error::StoreFull,
        r is Ok ==> new.holds(r->Ok_0) && new.object(r->Ok_0) == from.object(obj) && (obj is Blob
            <==> r->Ok_0 is Blob) && (obj is Tree <==> r->Ok_0 is Tree),
{
    let o = from.object(obj);
    match r {
        Ok(got) => {
            let x = choose|x: ObjectView|
                #![trigger record(x)]
                object_ok(x) && record(x) == buf && stores_room(blob, tree, commit, x)
                    && stores_view(blob, tree, commit).pushed(x, got, new);
            lemma_record_injective(x, o);
        },
        Err(e) => {
            if e == Error::CorruptObjectDatabase {
                assert(record(o) != buf);
            } else {
                let x = choose|x: ObjectView|
                    #![trigger record(x)]
                    object_ok(x) && record(x) == buf && !stores_room(blob, tree, commit, x);
                lemma_record_injective(x, o);
            }
        },
    }
}

/// The fifth byte of a record says the kind: 1 for a blob, 2 for a tree, 4
/// for a commit. The four bytes before it are the magic.
pub proof fn law_record_tag(o: ObjectView)
    ensures
        record(o).len() >= 5,
        record(o).take(4) == crate::object::magic(),
        record(o)[4] == match o {
            ObjectView::Blob(_) => 1u8,
            ObjectView::Tree(_) => 2u8,
            ObjectView::Commit(_) => 4u8,
        },
{
    assert(record(o).take(4) =~= crate::object::magic());
}

/// Deduplication in the database: a record that is written twice under a
/// hash that the database neither shows nor has in its queue stands in the
/// queue once; the flush enters one record, so that the object count is one
/// more, and the database then shows the bytes under the hash.
pub proof fn law_storage_dedup(
    a: crate::storage::Storage,
    b: crate::storage::Storage,
    c: crate::storage::Storage,
    d: crate::storage::Storage,
    h: crate::hash::Hash,
    data: Seq<u8>,
)
    requires
        a.pending() == Seq::<Pair>::empty(),
        !a.visible().contains_key(h),
        written_all(&a, &b, seq![(h, data)]),
        written_all(&b, &c, seq![(h, data)]),
        c.count() == a.count(),
        d.visible() == put_all(c.visible(), c.pending()),
        d.count() == crate::storage::counted(
            c.count(),
            crate::storage::news(c.visible(), c.pending()),
        ),
    ensures
        b.pending() == seq![(h, data)],
        c.pending() == b.pending(),
        d.visible() == a.visible().insert(h, data),
        d.count() == crate::storage::counted(a.count(), 1),
{
    let one = seq![(h, data)];
    let none = Seq::<Pair>::empty();
    lemma_one(a.visible(), a.pending(), (h, data));
    lemma_one(b.visible(), b.pending(), (h, data));
    assert(put_all(a.visible(), none) == a.visible());
    assert(none.push((h, data)) =~= one);
    assert(one.drop_last() =~= none);
    assert(one.last() == (h, data));
    assert(put_all(a.visible(), one) == put(put_all(a.visible(), none), h, data));
    assert(one.skip(1) =~= none);
    assert(crate::storage::news(put(a.visible(), h, data), one.skip(1)) == 0);
    assert(crate::storage::news(a.visible(), one) == 1);
}

/// Round trip of blobs: what decodes the record of a blob gives the
/// bytes of the blob.
pub proof fn law_blob_round_trip(data: Seq<u8>, r: Result<&[u8], Error>)
    requires
        data.len() <= u64::MAX,
        match r {
            Ok(d) => blob_record(data) == blob_record(d@),
            Err(e) => forall|d: Seq<u8>|
                d.len() <= u64::MAX ==> blob_record(data) != #[trigger] blob_record(d),
        },
    ensures
        r is Ok,
        r->Ok_0@ == data,
{
    match r {
        Ok(d) => {
            vstd::slice::axiom_spec_len(d);
            lemma_record_injective(ObjectView::Blob(data), ObjectView::Blob(d@));
        },
        Err(_) => {
            let same = blob_record(data);
            assert(same == blob_record(data));
            assert(false);
        },
    }
}

/// Round trip of the index: what decodes the file of an index gives an
/// index of the same entries.
pub proof fn law_index_round_trip(s: Seq<IndexEntryView>, r: Result<Index, Error>)
    requires
        index_ok(s),
        match r {
            Ok(x) => x.wf() && index_bytes(s) == index_bytes(x@),
            Err(e) => forall|t: Seq<IndexEntryView>|
                index_ok(t) ==> index_bytes(s) != #[trigger] index_bytes(t),
        },
    ensures
        r is Ok,
        r->Ok_0@ == s,
{
    match r {
        Ok(x) => {
            x.lemma_columns();
            lemma_index_bytes_injective(s, x@);
        },
        Err(_) => {
            let same = index_bytes(s);
            assert(same == index_bytes(s));
            assert(false);
        },
    }
}

/// Content addressing: the hash of an object is the digest of its record,
/// and the record is determined by the object. The same object has the same
/// hash wherever it is built, and different objects have different records.
pub proof fn law_content_addressing(a: ObjectView, b: ObjectView)
    requires
        object_ok(a),
        object_ok(b),
    ensures
        a == b ==> crate::hash::blake3_digest(record(a)) == crate::hash::blake3_digest(record(b)),
        a != b ==> record(a) != record(b),
{
    if record(a) == record(b) {
        lemma_record_injective(a, b);
    }
}

/// Deduplication: writing under a hash once more what was written under
/// it changes nothing: nothing becomes visible and nothing is queued.
pub proof fn law_write_twice<S: MogStorage>(a: &S, b: &S, c: &S, h: crate::hash::Hash, d: Seq<u8>)
    requires
        written_all(a, b, seq![(h, d)]),
        written_all(b, c, seq![(h, d)]),
    ensures
        c.visible() == b.visible(),
        c.pending() == b.pending(),
{
    lemma_one(a.visible(), a.pending(), (h, d));
    lemma_one(b.visible(), b.pending(), (h, d));
    if a.buffers() {
        if !put_all(a.visible(), a.pending()).contains_key(h) {
            assert(a.pending().push((h, d)).drop_last() =~= a.pending());
        }
    }
}

/// Deduplication, counted: of two records of one hash that are shown to a
/// storage one after the other, the second is never entered, and the first
/// only where the hash was not shown before: the object count grows by one
/// at most.
pub proof fn law_one_record(
    vis: Map<crate::hash::Hash, Seq<u8>>,
    h: crate::hash::Hash,
    d: Seq<u8>,
    e: Seq<u8>,
)
    ensures
        crate::storage::news(vis, seq![(h, d), (h, e)]) == if vis.contains_key(h) {
            0nat
        } else {
            1nat
        },
{
    let two = seq![(h, d), (h, e)];
    let one = two.skip(1);
    assert(one.len() == 1 && one[0] == (h, e));
    assert(one.skip(1).len() == 0);
    let mid = put(vis, h, d);
    assert(mid.contains_key(h));
    assert(crate::storage::news(put(mid, h, e), one.skip(1)) == 0);
    assert(crate::storage::news(mid, one) == 0);
}

/// The hex form of a hash spells the hash: it is the hex form of a hash,
/// and parsing it gives the hash back.
pub proof fn law_hex_round_trip(h: crate::hash::Hash)
    ensures
        crate::hash::is_hash_hex(crate::hash::hex_of(h@)),
        crate::hash::unhex(crate::hash::hex_of(h@)) == h@,
{
    crate::hash::lemma_unhex_hex_of(h@);
}

/// Reopening: a database that is opened from the file of a database holds
/// the count, the buckets and the records of that database, and shows what
/// it showed.
pub proof fn law_reopen(a: crate::storage::Storage, image: Seq<u8>, r: Result<crate::storage::Storage, Error>)
    requires
        a.wf(),
        image == crate::storage::db_image(a.count(), a.reserved_bytes(), a.buckets(), a.records()),
        match r {
            Ok(s) => s.wf() && image == crate::storage::db_image(
                s.count(),
                s.reserved_bytes(),
                s.buckets(),
                s.records(),
            ),
            Err(e) => forall|count: u64, reserved: Seq<u8>, table: Seq<u64>, data: Seq<u8>|
                crate::storage::db_ok(reserved, table, data) ==> image
                    != #[trigger] crate::storage::db_image(count, reserved, table, data),
        },
    ensures
        r is Ok,
        r->Ok_0.count() == a.count(),
        r->Ok_0.buckets() == a.buckets(),
        r->Ok_0.records() == a.records(),
        r->Ok_0.visible() == a.visible(),
{
    a.lemma_visible();
    match r {
        Err(_) => {
            let same = crate::storage::db_image(
                a.count(),
                a.reserved_bytes(),
                a.buckets(),
                a.records(),
            );
            assert(same == image);
            assert(false);
        },
        Ok(s) => {
            s.lemma_visible();
            let r6 = s.records();
            let r5 = crate::soa::column(s.buckets(), crate::soa::enc_u64()) + r6;
            let r4 = s.reserved_bytes() + r5;
            let r3 = crate::wire::u64_le(crate::table::DATA_START) + r4;
            let r2 = crate::wire::u64_le(s.count()) + r3;
            let r1 = crate::wire::u32_le(crate::storage::STORAGE_VERSION) + r2;
            assert(image =~= crate::storage::db_magic() + r1);
            crate::storage::lemma_db_fields(
                a.count(),
                a.reserved_bytes(),
                a.buckets(),
                a.records(),
                image,
                6,
                crate::storage::db_magic(),
                r1,
                crate::storage::STORAGE_VERSION,
                r2,
                s.count(),
                r3,
                crate::table::DATA_START,
                r4,
                s.reserved_bytes(),
                r5,
                s.buckets(),
                r6,
            );
        },
    }
}

/// Mode and name sensitivity: trees that differ, be it in a name or a mode
/// only, have different records.
pub proof fn law_tree_sensitivity(a: Seq<TreeEntryView>, b: Seq<TreeEntryView>)
    requires
        tree_ok(a),
        tree_ok(b),
        a != b,
    ensures
        tree_record(a) != tree_record(b),
{
    if tree_record(a) == tree_record(b) {
        lemma_record_injective(ObjectView::Tree(a), ObjectView::Tree(b));
    }
}

/// Tree sort invariance: indexes that hold the same entries have the same
/// root hash, in whatever order the entries were added.
pub proof fn law_tree_sort_invariance(a: Seq<IndexEntryView>, b: Seq<IndexEntryView>)
    requires
        a.to_multiset() == b.to_multiset(),
    ensures
        root_hash(a) == root_hash(b),
{
}

/// Index path integrity, for an entry that is staged: behind the add, one
/// entry has its path, and that entry is what was staged; the entries of
/// other paths are what they were.
pub proof fn law_add_then_find(s: Seq<IndexEntryView>, e: IndexEntryView)
    requires
        paths_distinct(index_paths(s)),
    ensures
        exists|i: int| 0 <= i < with_entry(s, e).len() && #[trigger] with_entry(s, e)[i] == e,
        forall|i: int|
            0 <= i < with_entry(s, e).len() && (#[trigger] with_entry(s, e)[i]).path == e.path
                ==> with_entry(s, e)[i] == e,
        forall|x: IndexEntryView| x.path != e.path ==> (with_entry(s, e).contains(x) <==> s.contains(x)),
{
    let t = with_entry(s, e);
    if exists|i: int| 0 <= i < s.len() && (#[trigger] s[i]).path == e.path {
        let c = choose|i: int| 0 <= i < s.len() && (#[trigger] s[i]).path == e.path;
        assert(t[c] == e);
        assert forall|i: int| 0 <= i < t.len() && (#[trigger] t[i]).path == e.path implies t[i]
            == e by {
            if i != c {
                assert(t[i] == s[i]);
                if i < c {
                    assert(index_paths(s)[i] != index_paths(s)[c]);
                } else {
                    assert(index_paths(s)[c] != index_paths(s)[i]);
                }
            }
        }
        assert forall|x: IndexEntryView| x.path != e.path implies (t.contains(x) <==> s.contains(
            x,
        )) by {
            if t.contains(x) {
                let i = choose|i: int| 0 <= i < t.len() && t[i] == x;
                assert(s[i] == x);
            }
            if s.contains(x) {
                let i = choose|i: int| 0 <= i < s.len() && s[i] == x;
                assert(t[i] == x);
            }
        }
    } else {
        assert(t[s.len() as int] == e);
        assert forall|i: int| 0 <= i < t.len() && (#[trigger] t[i]).path == e.path implies t[i]
            == e by {
            if i < s.len() {
                assert(s[i].path != e.path);
            }
        }
        assert forall|x: IndexEntryView| x.path != e.path implies (t.contains(x) <==> s.contains(
            x,
        )) by {
            if t.contains(x) {
                let i = choose|i: int| 0 <= i < t.len() && t[i] == x;
                assert(s[i] == x);
            }
            if s.contains(x) {
                let i = choose|i: int| 0 <= i < s.len() && s[i] == x;
                assert(t[i] == x);
            }
        }
    }
}

/// Index path integrity, for a path that is removed: behind the remove, no
/// entry has the path; the entries of other paths are what they were.
pub proof fn law_remove_then_find(s: Seq<IndexEntryView>, p: Seq<u8>)
    requires
        paths_distinct(index_paths(s)),
    ensures
        forall|i: int| 0 <= i < without_path(s, p).len() ==> (#[trigger] without_path(s, p)[i]).path != p,
        forall|x: IndexEntryView| x.path != p ==> (without_path(s, p).contains(x) <==> s.contains(x)),
{
    let t = without_path(s, p);
    if exists|i: int| 0 <= i < s.len() && (#[trigger] s[i]).path == p {
        let c = choose|i: int| 0 <= i < s.len() && (#[trigger] s[i]).path == p;
        assert forall|i: int| 0 <= i < t.len() implies (#[trigger] t[i]).path != p by {
            let i0 = if i < c { i } else { i + 1 };
            assert(t[i] == s[i0]);
            if i0 < c {
                assert(index_paths(s)[i0] != index_paths(s)[c]);
            } else {
                assert(index_paths(s)[c] != index_paths(s)[i0]);
            }
        }
        assert forall|x: IndexEntryView| x.path != p implies (t.contains(x) <==> s.contains(x)) by {
            if t.contains(x) {
                let i = choose|i: int| 0 <= i < t.len() && t[i] == x;
                let i0 = if i < c { i } else { i + 1 };
                assert(s[i0] == x);
            }
            if s.contains(x) {
                let i = choose|i: int| 0 <= i < s.len() && s[i] == x;
                let i1 = if i < c { i } else { i - 1 };
                assert(t[i1] == x);
            }
        }
    } else {
        assert forall|i: int| 0 <= i < t.len() implies (#[trigger] t[i]).path != p by {
            assert(s[i].path != p);
        }
    }
}

/// A change to the staged entries.
pub enum IndexChange {
    /// An entry is staged.
    Add(IndexEntryView),
    /// The entry of a path is removed.
    Remove(Seq<u8>),
}

/// The entries `s` after the changes `changes`, made one after the other.
pub open spec fn changed(s: Seq<IndexEntryView>, changes: Seq<IndexChange>) -> Seq<IndexEntryView>
    decreases changes.len(),
{
    if changes.len() == 0 {
        s
    } else {
        let before = changed(s, changes.drop_last());
        match changes.last() {
            IndexChange::Add(e) => with_entry(before, e),
            IndexChange::Remove(p) => without_path(before, p),
        }
    }
}

/// Whether `x` is what the entries `t` hold under the path `p`: an entry of
/// that path among them, or nothing where none of them has the path.
pub open spec fn held_under(t: Seq<IndexEntryView>, p: Seq<u8>, x: Option<IndexEntryView>) -> bool {
    match x {
        Some(e) => e.path == p && t.contains(e),
        None => forall|i: int| 0 <= i < t.len() ==> (#[trigger] t[i]).path != p,
    }
}

/// What was last stored for the path `p`: the entry that the last change
/// of that path staged, nothing where that change removed the path, and
/// `start`, what the entries held under the path before the changes, where
/// no change names it.
pub open spec fn last_stored(
    start: Option<IndexEntryView>,
    changes: Seq<IndexChange>,
    p: Seq<u8>,
) -> Option<IndexEntryView>
    decreases changes.len(),
{
    if changes.len() == 0 {
        start
    } else {
        match changes.last() {
            IndexChange::Add(e) => if e.path == p {
                Some(e)
            } else {
                last_stored(start, changes.drop_last(), p)
            },
            IndexChange::Remove(q) => if q == p {
                None
            } else {
                last_stored(start, changes.drop_last(), p)
            },
        }
    }
}

/// Index path integrity: after any sequence of adds and removes no two
/// entries have the same path, the entries hold under every path what was
/// last stored for it, and a lookup of the path finds that entry, or
/// nothing where the path was removed or never staged.
pub proof fn law_index_path_integrity(
    s: Seq<IndexEntryView>,
    changes: Seq<IndexChange>,
    p: Seq<u8>,
    start: Option<IndexEntryView>,
    r: Option<usize>,
)
    requires
        paths_distinct(index_paths(s)),
        held_under(s, p, start),
        crate::index::found_at(changed(s, changes), p, r),
    ensures
        paths_distinct(index_paths(changed(s, changes))),
        held_under(changed(s, changes), p, last_stored(start, changes, p)),
        match last_stored(start, changes, p) {
            Some(e) => r is Some && changed(s, changes)[r->0 as int] == e,
            None => r is None,
        },
{
    lemma_changed(s, changes, p, start);
    let t = changed(s, changes);
    match last_stored(start, changes, p) {
        Some(e) => {
            let j = choose|j: int| 0 <= j < t.len() && t[j] == e;
            assert(t[j].path == p);
            let i = r->0 as int;
            if i < j {
                assert(index_paths(t)[i] != index_paths(t)[j]);
            } else if j < i {
                assert(index_paths(t)[j] != index_paths(t)[i]);
            }
        },
        None => {
            if r is Some {
                assert(t[r->0 as int].path == p);
            }
        },
    }
}

/// After changes the paths are distinct, and the entries hold under a path
/// what was last stored for it.
pub proof fn lemma_changed(
    s: Seq<IndexEntryView>,
    changes: Seq<IndexChange>,
    p: Seq<u8>,
    start: Option<IndexEntryView>,
)
    requires
        paths_distinct(index_paths(s)),
        held_under(s, p, start),
    ensures
        paths_distinct(index_paths(changed(s, changes))),
        held_under(changed(s, changes), p, last_stored(start, changes, p)),
    decreases changes.len(),
{
    if changes.len() > 0 {
        let front = changes.drop_last();
        let before = changed(s, front);
        let t = changed(s, changes);
        let x = last_stored(start, front, p);
        lemma_changed(s, front, p, start);
        match changes.last() {
            IndexChange::Add(e) => {
                crate::stage::lemma_with_entry_distinct(before, e);
                law_add_then_find(before, e);
                if e.path != p {
                    lemma_other_path_kept(before, t, e.path, p, x);
                }
            },
            IndexChange::Remove(q) => {
                crate::stage::lemma_without_path_distinct(before, q);
                law_remove_then_find(before, q);
                if q != p {
                    lemma_other_path_kept(before, t, q, p, x);
                }
            },
        }
    }
}

/// Entries that differ from others only under the path `q` hold under
/// another path what the others hold.
pub proof fn lemma_other_path_kept(
    before: Seq<IndexEntryView>,
    after: Seq<IndexEntryView>,
    q: Seq<u8>,
    p: Seq<u8>,
    x: Option<IndexEntryView>,
)
    requires
        q != p,
        held_under(before, p, x),
        forall|y: IndexEntryView| y.path != q ==> (after.contains(y) <==> before.contains(y)),
    ensures
        held_under(after, p, x),
{
    match x {
        Some(e) => {},
        None => {
            assert forall|i: int| 0 <= i < after.len() implies (#[trigger] after[i]).path != p by {
                if after[i].path == p {
                    assert(after.contains(after[i]));
                    let j = choose|j: int| 0 <= j < before.len() && before[j] == after[i];
                    assert(before[j].path == p);
                }
            }
        },
    }
}

/// The dirty gate: a file within the size limit that the index holds with
/// its modification time and size is not staged again, and so neither read
/// nor hashed.
pub proof fn law_dirty_gate(index: Seq<IndexEntryView>, i: int, meta: FileMeta)
    requires
        0 <= i < index.len(),
        index[i].mtime == meta.mtime,
        index[i].size == meta.size,
        meta.size <= STAGE_MAX_FILE_BYTES,
    ensures
        stage_decision(index, index[i].path, meta) == StageDecision::Unchanged,
{
}

/// History recoverability: writes keep what was visible, so a blob that
/// could be read before them reads the same behind them.
pub proof fn law_history_recoverable<S: MogStorage>(
    a: &S,
    b: &S,
    ws: Seq<Pair>,
    h: crate::hash::Hash,
    r: Result<&[u8], Error>,
)
    requires
        written_all(a, b, ws),
        a.visible().contains_key(h),
    ensures
        b.visible().contains_key(h),
        b.visible()[h] == a.visible()[h],
        blob_read(a.visible(), h, r) == blob_read(b.visible(), h, r),
{
    if !a.buffers() {
        lemma_put_all_extends(a.visible(), ws);
        assert(a.visible().dom().contains(h));
    }
}

/// The path that the components spell below the directory `prefix`.
pub open spec fn path_at(prefix: Seq<u8>, comps: Seq<Seq<u8>>) -> Seq<u8>
    decreases comps.len(),
{
    if comps.len() == 0 {
        prefix
    } else {
        path_at(join(prefix, comps[0]), comps.skip(1))
    }
}

/// A blob of hash `h` stands at the components `comps` below the entries
/// `es`: an entry has the name of the first component; it is the blob where
/// that is the last component, and a directory whose tree holds the blob at
/// the other components otherwise.
pub open spec fn blob_stands_at(
    visible: Map<crate::hash::Hash, Seq<u8>>,
    es: Seq<TreeEntryView>,
    comps: Seq<Seq<u8>>,
    h: crate::hash::Hash,
) -> bool
    decreases comps.len(),
{
    comps.len() > 0 && exists|j: int|
        #![trigger es[j]]
        0 <= j < es.len() && es[j].name == comps[0] && if comps.len() == 1 {
            es[j].mode != MODE_DIR && es[j].hash == h
        } else {
            es[j].mode == MODE_DIR && tree_read(visible, es[j].hash) is Ok && blob_stands_at(
                visible,
                tree_read(visible, es[j].hash)->Ok_0,
                comps.skip(1),
                h,
            )
        }
}

/// What a listing from entry `j0` on holds of entry `j`: the blob with its
/// path, or all that the tree of the directory lists.
pub proof fn lemma_listing_holds_entry(
    visible: Map<crate::hash::Hash, Seq<u8>>,
    es: Seq<TreeEntryView>,
    j0: int,
    j: int,
    prefix: Seq<u8>,
    fuel: nat,
)
    requires
        0 <= j0 <= j < es.len(),
        flat_from(visible, es, j0, prefix, fuel) is Ok,
    ensures
        es[j].mode != MODE_DIR ==> flat_from(visible, es, j0, prefix, fuel)->Ok_0.contains(
            (join(prefix, es[j].name), es[j].hash),
        ),
        es[j].mode == MODE_DIR ==> fuel > 0 && tree_read(visible, es[j].hash) is Ok && flat_from(
            visible,
            tree_read(visible, es[j].hash)->Ok_0,
            0,
            join(prefix, es[j].name),
            (fuel - 1) as nat,
        ) is Ok && forall|x: FlatEntry|
            flat_from(
                visible,
                tree_read(visible, es[j].hash)->Ok_0,
                0,
                join(prefix, es[j].name),
                (fuel - 1) as nat,
            )->Ok_0.contains(x) ==> #[trigger] flat_from(
                visible,
                es,
                j0,
                prefix,
                fuel,
            )->Ok_0.contains(x),
    decreases j - j0,
{
    let all = flat_from(visible, es, j0, prefix, fuel)->Ok_0;
    let e = es[j0];
    let rest = flat_from(visible, es, j0 + 1, prefix, fuel);
    if e.mode == MODE_DIR {
        let sub = tree_read(visible, e.hash)->Ok_0;
        let head = flat_from(visible, sub, 0, join(prefix, e.name), (fuel - 1) as nat)->Ok_0;
        assert(all == head + rest->Ok_0);
        if j == j0 {
            assert forall|x: FlatEntry| head.contains(x) implies #[trigger] all.contains(x) by {
                let k = choose|k: int| 0 <= k < head.len() && head[k] == x;
                assert(all[k] == x);
            }
        } else {
            lemma_listing_holds_entry(visible, es, j0 + 1, j, prefix, fuel);
            lemma_contains_tail(head, rest->Ok_0);
        }
    } else {
        let head = seq![(join(prefix, e.name), e.hash)];
        assert(all == head + rest->Ok_0);
        if j == j0 {
            assert(all[0] == (join(prefix, e.name), e.hash));
        } else {
            lemma_listing_holds_entry(visible, es, j0 + 1, j, prefix, fuel);
            lemma_contains_tail(head, rest->Ok_0);
        }
    }
}

/// What the tail of a listing holds, the listing holds.
pub proof fn lemma_contains_tail(head: Seq<FlatEntry>, tail: Seq<FlatEntry>)
    ensures
        forall|x: FlatEntry| tail.contains(x) ==> #[trigger] (head + tail).contains(x),
{
    assert forall|x: FlatEntry| tail.contains(x) implies #[trigger] (head + tail).contains(x) by {
        let k = choose|k: int| 0 <= k < tail.len() && tail[k] == x;
        assert((head + tail)[head.len() + k] == x);
    }
}

/// A listing holds every blob that stands below its entries, with the
/// path that the components to it spell.
pub proof fn lemma_listing_holds_blob(
    visible: Map<crate::hash::Hash, Seq<u8>>,
    es: Seq<TreeEntryView>,
    prefix: Seq<u8>,
    fuel: nat,
    comps: Seq<Seq<u8>>,
    h: crate::hash::Hash,
)
    requires
        flat_from(visible, es, 0, prefix, fuel) is Ok,
        blob_stands_at(visible, es, comps, h),
    ensures
        flat_from(visible, es, 0, prefix, fuel)->Ok_0.contains((path_at(prefix, comps), h)),
    decreases comps.len(),
{
    let j = choose|j: int|
        #![trigger es[j]]
        0 <= j < es.len() && es[j].name == comps[0] && if comps.len() == 1 {
            es[j].mode != MODE_DIR && es[j].hash == h
        } else {
            es[j].mode == MODE_DIR && tree_read(visible, es[j].hash) is Ok && blob_stands_at(
                visible,
                tree_read(visible, es[j].hash)->Ok_0,
                comps.skip(1),
                h,
            )
        };
    lemma_listing_holds_entry(visible, es, 0, j, prefix, fuel);
    if comps.len() == 1 {
        assert(comps.skip(1).len() == 0);
        assert(path_at(prefix, comps) == join(prefix, comps[0]));
    } else {
        let sub = tree_read(visible, es[j].hash)->Ok_0;
        lemma_listing_holds_blob(
            visible,
            sub,
            join(prefix, es[j].name),
            (fuel - 1) as nat,
            comps.skip(1),
            h,
        );
    }
}

/// Flat-tree completeness: where the tree under `root` can be listed and no
/// path stands twice in the listing, a lookup of the path of a blob that
/// stands in the tree gives the hash of the blob, and a lookup of a path
/// that the listing does not hold gives nothing.
pub proof fn law_flat_tree_complete(
    visible: Map<crate::hash::Hash, Seq<u8>>,
    root: crate::hash::Hash,
    comps: Seq<Seq<u8>>,
    h: crate::hash::Hash,
    other: Seq<u8>,
    found: Option<crate::hash::Hash>,
    missed: Option<crate::hash::Hash>,
)
    requires
        flat_tree(visible, root) is Ok,
        distinct_paths(flat_tree(visible, root)->Ok_0),
        blob_stands_at(visible, tree_read(visible, root)->Ok_0, comps, h),
        looked_up(flat_tree(visible, root)->Ok_0, path_at(Seq::empty(), comps), found),
        forall|k: int|
            0 <= k < flat_tree(visible, root)->Ok_0.len() ==> (#[trigger] flat_tree(
                visible,
                root,
            )->Ok_0[k]).0 != other,
        looked_up(flat_tree(visible, root)->Ok_0, other, missed),
    ensures
        found == Some(h),
        missed is None,
{
    let list = flat_tree(visible, root)->Ok_0;
    let es = tree_read(visible, root)->Ok_0;
    let path = path_at(Seq::empty(), comps);
    lemma_listing_holds_blob(visible, es, Seq::empty(), MAX_TREE_DEPTH as nat, comps, h);
    let i = choose|i: int| 0 <= i < list.len() && list[i] == (path, h);
    match found {
        Some(g) => {
            let k = choose|k: int| 0 <= k < list.len() && #[trigger] list[k] == (path, g);
            if k != i {
                assert(list[k].0 == list[i].0);
            }
        },
        None => {
            assert(list[i].0 == path);
        },
    }
    match missed {
        Some(g) => {
            let k = choose|k: int| 0 <= k < list.len() && #[trigger] list[k] == (other, g);
            assert(list[k].0 == other);
        },
        None => {},
    }
}

} // verus!
