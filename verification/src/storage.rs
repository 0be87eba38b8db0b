//! The object database: what every storage offers, and the association
//! lists by which the storages and the cache are modelled.

use crate::error::Error;
use crate::hash::hash_eq;
use crate::soa::{column, enc_u64, lemma_column_injective, lemma_column_len, lemma_encoders, read_u64s, write_u64s};
use crate::table::{
    check_table, empty_table, find_bucket, insert_record, lemma_zeros_all, rec_hash, record_at,
    record_fits, stored_at, table_map, table_ok, zeros, DATA_START, ENTRY_HEADER_SIZE,
    HASH_TABLE_BUCKETS, HEADER_SIZE,
};
use crate::wire::{lemma_int_le, lemma_split_at, u32_le, u64_le, ReadCursor, WriteCursor};
use vstd::slice::slice_to_vec;
use vstd::prelude::*;

verus! {

/// A record that waits to be written: the hash of an object and its
/// encoded bytes.
pub struct PendingStorageWrite {
    pub hash: crate::hash::Hash,
    pub data: Vec<u8>,
}

/// A record as a pair of hash and bytes.
pub type Pair = (crate::hash::Hash, Seq<u8>);

/// The pairs that a sequence of records holds.
pub open spec fn pairs(s: Seq<PendingStorageWrite>) -> Seq<Pair> {
    Seq::new(s.len(), |i: int| (s[i].hash, s[i].data@))
}

/// `m` with `d` written under `h`, unless something is there already:
/// content addressing never overwrites.
pub open spec fn put(m: Map<crate::hash::Hash, Seq<u8>>, h: crate::hash::Hash, d: Seq<u8>) -> Map<
    crate::hash::Hash,
    Seq<u8>,
> {
    if m.contains_key(h) {
        m
    } else {
        m.insert(h, d)
    }
}

/// Every key of `a` is a key of `b`, with the same bytes.
pub open spec fn part_of(a: Map<crate::hash::Hash, Seq<u8>>, b: Map<crate::hash::Hash, Seq<u8>>) -> bool {
    forall|k: crate::hash::Hash| #[trigger] a.dom().contains(k) ==> b.dom().contains(k) && a[k] == b[k]
}

/// The map that writing the pairs of `s` in order into `m` gives.
pub open spec fn put_all(m: Map<crate::hash::Hash, Seq<u8>>, s: Seq<Pair>) -> Map<
    crate::hash::Hash,
    Seq<u8>,
>
    decreases s.len(),
{
    if s.len() == 0 {
        m
    } else {
        put(put_all(m, s.drop_last()), s.last().0, s.last().1)
    }
}

/// No hash occurs twice in `s`.
pub open spec fn distinct(s: Seq<Pair>) -> bool {
    forall|i: int, j: int| 0 <= i < j < s.len() ==> s[i].0 != s[j].0
}

/// Pair `i` is the first of `s` with the hash `h`.
pub open spec fn is_first(s: Seq<Pair>, h: crate::hash::Hash, i: int) -> bool {
    &&& 0 <= i < s.len()
    &&& s[i].0 == h
    &&& forall|k: int| 0 <= k < i ==> (#[trigger] s[k]).0 != h
}

/// No pair of `s` has the hash `h`.
pub open spec fn lacks(s: Seq<Pair>, h: crate::hash::Hash) -> bool {
    forall|k: int| 0 <= k < s.len() ==> (#[trigger] s[k]).0 != h
}

/// Writing pairs into a map keeps what the map had.
pub proof fn lemma_put_all_keeps(m: Map<crate::hash::Hash, Seq<u8>>, s: Seq<Pair>, h: crate::hash::Hash)
    requires
        m.contains_key(h),
    ensures
        put_all(m, s).contains_key(h),
        put_all(m, s)[h] == m[h],
    decreases s.len(),
{
    if s.len() > 0 {
        lemma_put_all_keeps(m, s.drop_last(), h);
    }
}

/// Writing pairs of other hashes leaves a hash as it was.
pub proof fn lemma_put_all_absent(m: Map<crate::hash::Hash, Seq<u8>>, s: Seq<Pair>, h: crate::hash::Hash)
    requires
        lacks(s, h),
    ensures
        put_all(m, s).contains_key(h) == m.contains_key(h),
        m.contains_key(h) ==> put_all(m, s)[h] == m[h],
    decreases s.len(),
{
    if s.len() > 0 {
        let t = s.drop_last();
        assert forall|k: int| 0 <= k < t.len() implies (#[trigger] t[k]).0 != h by {
            assert(s[k].0 != h);
        }
        lemma_put_all_absent(m, t, h);
        assert(s[s.len() - 1].0 != h);
    }
}

/// A hash that the map lacks gets the bytes of the first pair that has it.
pub proof fn lemma_put_all_first(
    m: Map<crate::hash::Hash, Seq<u8>>,
    s: Seq<Pair>,
    h: crate::hash::Hash,
    i: int,
)
    requires
        !m.contains_key(h),
        is_first(s, h, i),
    ensures
        put_all(m, s).contains_key(h),
        put_all(m, s)[h] == s[i].1,
    decreases s.len(),
{
    let t = s.drop_last();
    let n = s.len() - 1;
    if i < n {
        assert(t[i] == s[i]);
        assert forall|k: int| 0 <= k < i implies (#[trigger] t[k]).0 != h by {
            assert(s[k].0 != h);
        }
        lemma_put_all_first(m, t, h, i);
    } else {
        assert forall|k: int| 0 <= k < t.len() implies (#[trigger] t[k]).0 != h by {
            assert(s[k].0 != h);
        }
        lemma_put_all_absent(m, t, h);
    }
}

/// The map of a list without repeated hashes has one key per pair.
pub proof fn lemma_put_all_len(s: Seq<Pair>)
    requires
        distinct(s),
    ensures
        put_all(Map::empty(), s).dom().finite(),
        put_all(Map::empty(), s).dom().len() == s.len(),
    decreases s.len(),
{
    if s.len() > 0 {
        let t = s.drop_last();
        let n = s.len() - 1;
        assert forall|i: int, j: int| 0 <= i < j < t.len() implies t[i].0 != t[j].0 by {
            assert(s[i].0 != s[j].0);
        }
        lemma_put_all_len(t);
        assert forall|k: int| 0 <= k < t.len() implies (#[trigger] t[k]).0 != s[n].0 by {
            assert(s[k].0 != s[n].0);
        }
        lemma_put_all_absent(Map::empty(), t, s[n].0);
        assert(put_all(Map::empty(), s).dom() =~= put_all(Map::empty(), t).dom().insert(s[n].0));
    } else {
        assert(put_all(Map::<crate::hash::Hash, Seq<u8>>::empty(), s).dom() =~= Set::empty());
    }
}

/// A hash that writing pairs brought into a map is the hash of one of
/// them.
pub proof fn lemma_put_all_has(
    m: Map<crate::hash::Hash, Seq<u8>>,
    s: Seq<Pair>,
    h: crate::hash::Hash,
) -> (i: int)
    requires
        put_all(m, s).contains_key(h),
        !m.contains_key(h),
    ensures
        is_first(s, h, i),
    decreases s.len(),
{
    let t = s.drop_last();
    let n = s.len() - 1;
    if put_all(m, t).contains_key(h) {
        let i = lemma_put_all_has(m, t, h);
        assert(s[i] == t[i]);
        assert forall|k: int| 0 <= k < i implies (#[trigger] s[k]).0 != h by {
            assert(t[k].0 != h);
        }
        i
    } else {
        assert forall|k: int| 0 <= k < n implies (#[trigger] s[k]).0 != h by {
            if s[k].0 == h {
                assert(t[k].0 == h);
                let f = choose_first(t, h, k);
                lemma_put_all_first(m, t, h, f);
            }
        }
        n
    }
}

/// The first pair with the hash `h` among the first `k + 1` pairs, of which
/// pair `k` has it.
pub proof fn choose_first(s: Seq<Pair>, h: crate::hash::Hash, k: int) -> (f: int)
    requires
        0 <= k < s.len(),
        s[k].0 == h,
    ensures
        is_first(s, h, f),
        f <= k,
    decreases k,
{
    if exists|j: int| 0 <= j < k && (#[trigger] s[j]).0 == h {
        let j = choose|j: int| 0 <= j < k && (#[trigger] s[j]).0 == h;
        choose_first(s, h, j)
    } else {
        k
    }
}

/// The map of a list without repeated hashes holds what the map of the
/// list without its first pairs holds.
pub proof fn lemma_skip_submap(s: Seq<Pair>, k: int)
    requires
        distinct(s),
        0 <= k <= s.len(),
    ensures
        part_of(put_all(Map::empty(), s.skip(k)), put_all(Map::empty(), s)),
        distinct(s.skip(k)),
{
    let e = Map::<crate::hash::Hash, Seq<u8>>::empty();
    let t = s.skip(k);
    assert forall|h: crate::hash::Hash| #[trigger] put_all(e, t).dom().contains(h) implies put_all(
        e,
        s,
    ).dom().contains(h) && put_all(e, t)[h] == put_all(e, s)[h] by {
        let i = lemma_put_all_has(e, t, h);
        lemma_put_all_first(e, t, h, i);
        assert(s[k + i] == t[i]);
        assert forall|j: int| 0 <= j < k + i implies (#[trigger] s[j]).0 != h by {
            assert(s[j].0 != s[k + i].0);
        }
        lemma_put_all_first(e, s, h, k + i);
    }
    assert forall|i: int, j: int| 0 <= i < j < t.len() implies t[i].0 != t[j].0 by {
        assert(s[k + i].0 != s[k + j].0);
    }
}

/// The position of the first record with this hash, if there is one.
pub fn find_record(records: &Vec<PendingStorageWrite>, hash: &crate::hash::Hash) -> (r: Option<
    usize,
>)
    ensures
        match r {
            Some(i) => i < records@.len() && records@[i as int].hash == *hash && forall|k: int|
                0 <= k < i ==> (#[trigger] records@[k]).hash != *hash,
            None => forall|k: int| 0 <= k < records@.len() ==> (#[trigger] records@[k]).hash != *hash,
        },
{
    let n = records.len();
    let mut i: usize = 0;
    while i < n
        invariant
            i <= n,
            n == records@.len(),
            forall|k: int| 0 <= k < i ==> (#[trigger] records@[k]).hash != *hash,
        decreases n - i,
    {
        if hash_eq(&records[i].hash, hash) {
            return Some(i);
        }
        i += 1;
    }
    None
}

/// What an object database offers. `visible` is what reads find; `pending`
/// is what was written and waits for a flush. A storage that does not
/// buffer shows every write at once and has nothing pending.
pub trait MogStorage: Sized {
    /// The invariant of the storage.
    spec fn wf(&self) -> bool;

    /// The objects that `contains` and `read` find.
    spec fn visible(&self) -> Map<crate::hash::Hash, Seq<u8>>;

    /// The records that wait for a flush, in the order in which they were
    /// written.
    spec fn pending(&self) -> Seq<Pair>;

    /// Whether writes wait for `flush` before reads find them.
    spec fn buffers(&self) -> bool;

    /// Whether a record of `n` bytes can be taken.
    spec fn accepts(&self, n: nat) -> bool;

    /// What the storage answers when it is to make the records `ws`
    /// visible, in order.
    spec fn shows(&self, ws: Seq<Pair>) -> Result<(), Error>;

    /// Whether a record of `n` bytes can be taken.
    fn can_accept(&self, n: usize) -> (r: bool)
        requires
            self.wf(),
        ensures
            r == self.accepts(n as nat),
    ;

    /// Whether an object is stored under `hash`.
    fn contains(&self, hash: &crate::hash::Hash) -> (r: bool)
        requires
            self.wf(),
        ensures
            r == self.visible().contains_key(*hash),
    ;

    /// The encoded bytes stored under `hash`, or `NotFound`.
    fn read<'a>(&'a self, hash: &crate::hash::Hash) -> (r: Result<&'a [u8], Error>)
        requires
            self.wf(),
        ensures
            match r {
                Ok(d) => self.visible().contains_key(*hash) && d@ == self.visible()[*hash],
                Err(e) => e == Error::NotFound && !self.visible().contains_key(*hash),
            },
    ;

    /// Writes `data` under `hash`, unless the hash is known already: a
    /// buffering storage queues the record, another one shows it at once.
    fn write(&mut self, hash: crate::hash::Hash, data: Vec<u8>)
        requires
            old(self).wf(),
            old(self).accepts(data@.len()),
        ensures
            final(self).wf(),
            final(self).buffers() == old(self).buffers(),
            forall|n: nat| final(self).accepts(n) == old(self).accepts(n),
            forall|ws: Seq<Pair>| final(self).shows(ws) == old(self).shows(ws),
            old(self).buffers() ==> final(self).visible() == old(self).visible() && final(self).pending() == if put_all(old(self).visible(), old(self).pending()).contains_key(hash) {
                old(self).pending()
            } else {
                old(self).pending().push((hash, data@))
            },
            !old(self).buffers() ==> final(self).visible() == put(
                old(self).visible(),
                hash,
                data@,
            ) && final(self).pending() == old(self).pending(),
    ;

    /// Writes the records of `writes` in order, each unless its hash is
    /// visible already, and shows them at once. On an error some of them
    /// may have been written: `HashTableFull` where the table has no empty
    /// bucket left, `StoreFull` where a record cannot be taken.
    fn write_batch(&mut self, writes: &[PendingStorageWrite]) -> (r: Result<(), Error>)
        requires
            old(self).wf(),
        ensures
            final(self).wf(),
            final(self).buffers() == old(self).buffers(),
            forall|n: nat| final(self).accepts(n) == old(self).accepts(n),
            final(self).pending() == old(self).pending(),
            part_of(old(self).visible(), final(self).visible()),
            r == old(self).shows(pairs(writes@)),
            match r {
                Ok(_) => final(self).visible() == put_all(old(self).visible(), pairs(writes@)),
                Err(e) => (e == Error::HashTableFull || e == Error::StoreFull) && exists|k: int|
                    0 <= k < writes@.len() && final(self).visible() == #[trigger] put_all(
                        old(self).visible(),
                        pairs(writes@).take(k),
                    ),
            },
    ;

    /// Makes every pending record visible. On an error the records before
    /// the one that was refused have become visible, and no others; the
    /// queue is as it was, and what was visible still is.
    fn flush(&mut self) -> (r: Result<(), Error>)
        requires
            old(self).wf(),
        ensures
            final(self).wf(),
            final(self).buffers() == old(self).buffers(),
            forall|n: nat| final(self).accepts(n) == old(self).accepts(n),
            part_of(old(self).visible(), final(self).visible()),
            r == old(self).shows(old(self).pending()),
            match r {
                Ok(_) => final(self).visible() == put_all(old(self).visible(), old(self).pending()) && final(self).pending()
                    == Seq::<Pair>::empty(),
                Err(e) => (e == Error::HashTableFull || e == Error::StoreFull) && final(self).pending() == old(self).pending() && exists|k: int|
                    0 <= k < old(self).pending().len() && final(self).visible()
                        == #[trigger] put_all(old(self).visible(), old(self).pending().take(k)),
            },
    ;

    /// Makes what was flushed durable. The storage holds what it held.
    fn sync(&mut self) -> (r: Result<(), Error>)
        requires
            old(self).wf(),
        ensures
            r is Ok,
            final(self).wf(),
            final(self).buffers() == old(self).buffers(),
            forall|n: nat| final(self).accepts(n) == old(self).accepts(n),
            forall|ws: Seq<Pair>| final(self).shows(ws) == old(self).shows(ws),
            final(self).visible() == old(self).visible(),
            final(self).pending() == old(self).pending(),
    ;
}

/// The queue after a write of `x` into a buffering storage: `x` behind the
/// pending records, unless its hash is visible or pending already.
pub open spec fn queued(visible: Map<crate::hash::Hash, Seq<u8>>, pending: Seq<Pair>, x: Pair) -> Seq<Pair> {
    if put_all(visible, pending).contains_key(x.0) {
        pending
    } else {
        pending.push(x)
    }
}

/// The queue after writes of the pairs of `ws`, in order.
pub open spec fn queued_all(visible: Map<crate::hash::Hash, Seq<u8>>, pending: Seq<Pair>, ws: Seq<Pair>) -> Seq<Pair>
    decreases ws.len(),
{
    if ws.len() == 0 {
        pending
    } else {
        queued(visible, queued_all(visible, pending, ws.drop_last()), ws.last())
    }
}

/// What writing the pairs of `ws` in order does to a storage: a buffering
/// storage queues those whose hash is not known yet, another one shows them
/// at once. Nothing that was visible changes.
pub open spec fn written_all<S: MogStorage>(old: &S, new: &S, ws: Seq<Pair>) -> bool {
    &&& new.wf()
    &&& new.buffers() == old.buffers()
    &&& forall|n: nat| new.accepts(n) == old.accepts(n)
    &&& forall|ws: Seq<Pair>| new.shows(ws) == old.shows(ws)
    &&& if old.buffers() {
        new.visible() == old.visible() && new.pending() == queued_all(
            old.visible(),
            old.pending(),
            ws,
        )
    } else {
        new.visible() == put_all(old.visible(), ws) && new.pending() == old.pending()
    }
}

/// What a storage shows once the pairs of `ws` are written to it and it is
/// flushed: a buffering storage shows what it showed, then its queue with
/// the pairs behind it; another one shows the pairs at once, then its
/// queue.
pub open spec fn flushed_after<S: MogStorage>(s: &S, ws: Seq<Pair>) -> Map<crate::hash::Hash, Seq<u8>> {
    if s.buffers() {
        put_all(s.visible(), queued_all(s.visible(), s.pending(), ws))
    } else {
        put_all(put_all(s.visible(), ws), s.pending())
    }
}

/// The queue of a storage once the pairs of `ws` are written to it.
pub open spec fn pending_after<S: MogStorage>(s: &S, ws: Seq<Pair>) -> Seq<Pair> {
    if s.buffers() {
        queued_all(s.visible(), s.pending(), ws)
    } else {
        s.pending()
    }
}

/// Writing a list of one pair is one write.
pub proof fn lemma_one(visible: Map<crate::hash::Hash, Seq<u8>>, pending: Seq<Pair>, x: Pair)
    ensures
        put_all(visible, seq![x]) == put(visible, x.0, x.1),
        queued_all(visible, pending, seq![x]) == queued(visible, pending, x),
{
    let one = seq![x];
    let none = one.drop_last();
    assert(none.len() == 0);
    assert(one.last() == x);
    assert(put_all(visible, none) == visible);
    assert(queued_all(visible, pending, none) == pending);
    assert(put_all(visible, one) == put(put_all(visible, none), one.last().0, one.last().1));
    assert(queued_all(visible, pending, one) == queued(
        visible,
        queued_all(visible, pending, none),
        one.last(),
    ));
}

/// Writes after writes are the writes of both, in order.
pub proof fn lemma_written_all_append<S: MogStorage>(a: &S, b: &S, c: &S, ws: Seq<Pair>, xs: Seq<Pair>)
    requires
        written_all(a, b, ws),
        written_all(b, c, xs),
    ensures
        written_all(a, c, ws + xs),
    decreases xs.len(),
{
    if xs.len() == 0 {
        assert(ws + xs =~= ws);
    } else {
        let t = xs.drop_last();
        assert((ws + xs).drop_last() =~= ws + t);
        assert((ws + xs).last() == xs.last());
        lemma_queued_all_append(a.visible(), a.pending(), ws, xs);
        lemma_put_all_append(a.visible(), ws, xs);
    }
}

/// Queueing pairs after pairs is queueing both, in order.
pub proof fn lemma_queued_all_append(
    visible: Map<crate::hash::Hash, Seq<u8>>,
    pending: Seq<Pair>,
    ws: Seq<Pair>,
    xs: Seq<Pair>,
)
    ensures
        queued_all(visible, queued_all(visible, pending, ws), xs) == queued_all(
            visible,
            pending,
            ws + xs,
        ),
    decreases xs.len(),
{
    if xs.len() == 0 {
        assert(ws + xs =~= ws);
    } else {
        lemma_queued_all_append(visible, pending, ws, xs.drop_last());
        assert((ws + xs).drop_last() =~= ws + xs.drop_last());
        assert((ws + xs).last() == xs.last());
    }
}

/// Putting pairs after pairs is putting both, in order.
pub proof fn lemma_put_all_append(m: Map<crate::hash::Hash, Seq<u8>>, ws: Seq<Pair>, xs: Seq<Pair>)
    ensures
        put_all(put_all(m, ws), xs) == put_all(m, ws + xs),
    decreases xs.len(),
{
    if xs.len() == 0 {
        assert(ws + xs =~= ws);
    } else {
        lemma_put_all_append(m, ws, xs.drop_last());
        assert((ws + xs).drop_last() =~= ws + xs.drop_last());
        assert((ws + xs).last() == xs.last());
    }
}

/// The objects that were written, flushed or not: the visible ones, and
/// the pending ones whose hash is not visible.
pub open spec fn known<S: MogStorage>(s: &S) -> Map<crate::hash::Hash, Seq<u8>> {
    put_all(s.visible(), s.pending())
}

/// Writing pairs into a map extends it.
pub proof fn lemma_put_all_extends(m: Map<crate::hash::Hash, Seq<u8>>, s: Seq<Pair>)
    ensures
        part_of(m, put_all(m, s)),
{
    assert forall|h: crate::hash::Hash| #[trigger] m.dom().contains(h) implies put_all(
        m,
        s,
    ).dom().contains(h) && m[h] == put_all(m, s)[h] by {
        lemma_put_all_keeps(m, s, h);
    }
}

/// The error with which a database that shows the objects `vis`, with
/// `free` empty buckets and `size` bytes of records, answers the record
/// `x`, if it has one: none where the hash is stored already; `StoreFull`
/// where the record is too long for its length field or for the machine;
/// `HashTableFull` where no bucket is empty.
pub open spec fn refusal(vis: Map<crate::hash::Hash, Seq<u8>>, free: nat, size: nat, x: Pair) -> Option<
    Error,
> {
    if vis.contains_key(x.0) {
        None
    } else if x.1.len() > u32::MAX || !record_fits(size, x.1.len()) {
        Some(Error::StoreFull)
    } else if free == 0 {
        Some(Error::HashTableFull)
    } else {
        None
    }
}

/// The empty buckets that are left once the record `x` is entered.
pub open spec fn free_after(vis: Map<crate::hash::Hash, Seq<u8>>, free: nat, x: Pair) -> nat {
    if vis.contains_key(x.0) {
        free
    } else {
        (free - 1) as nat
    }
}

/// The bytes of records once the record `x` is entered.
pub open spec fn size_after(vis: Map<crate::hash::Hash, Seq<u8>>, size: nat, x: Pair) -> nat {
    if vis.contains_key(x.0) {
        size
    } else {
        size + (ENTRY_HEADER_SIZE as nat) + x.1.len()
    }
}

/// What such a database answers when it is to show the records `ws` in
/// order: the error of the first record that it refuses, where it refuses
/// one.
pub open spec fn shown(vis: Map<crate::hash::Hash, Seq<u8>>, free: nat, size: nat, ws: Seq<Pair>) -> Result<
    (),
    Error,
>
    decreases ws.len(),
{
    if ws.len() == 0 {
        Ok(())
    } else {
        match refusal(vis, free, size, ws[0]) {
            Some(e) => Err(e),
            None => shown(
                put(vis, ws[0].0, ws[0].1),
                free_after(vis, free, ws[0]),
                size_after(vis, size, ws[0]),
                ws.skip(1),
            ),
        }
    }
}

/// Whether a table `t1` with the records `d1` keeps what the table `t0`
/// with the records `d0` held: the records stand where they stood, with
/// records behind them at most, and every bucket that was taken points
/// where it pointed.
pub open spec fn kept(t0: Seq<u64>, d0: Seq<u8>, t1: Seq<u64>, d1: Seq<u8>) -> bool {
    &&& crate::util::is_prefix(d0, d1)
    &&& forall|b: int| 0 <= b < HASH_TABLE_BUCKETS && #[trigger] t0[b] != 0 ==> t1[b] == t0[b]
}

/// A table and its records keep what they hold.
pub proof fn lemma_kept_same(t: Seq<u64>, d: Seq<u8>)
    ensures
        kept(t, d, t, d),
{
    assert(d.subrange(0, d.len() as int) =~= d);
}

/// What keeps what kept something keeps that.
pub proof fn lemma_kept_then(
    t0: Seq<u64>,
    d0: Seq<u8>,
    t1: Seq<u64>,
    d1: Seq<u8>,
    t2: Seq<u64>,
    d2: Seq<u8>,
)
    requires
        kept(t0, d0, t1, d1),
        kept(t1, d1, t2, d2),
    ensures
        kept(t0, d0, t2, d2),
{
    assert(d2.subrange(0, d0.len() as int) =~= d1.subrange(0, d0.len() as int));
    assert forall|b: int| 0 <= b < HASH_TABLE_BUCKETS && #[trigger] t0[b] != 0 implies t2[b]
        == t0[b] by {
        assert(t1[b] == t0[b]);
        assert(t1[b] != 0);
    }
}

/// Records behind the records, and buckets that differ only where none
/// was taken, keep what was held.
pub proof fn lemma_kept_more(t0: Seq<u64>, d0: Seq<u8>, t1: Seq<u64>, more: Seq<u8>)
    requires
        forall|x: int| 0 <= x < HASH_TABLE_BUCKETS && t0[x] != 0 ==> #[trigger] t1[x] == t0[x],
    ensures
        kept(t0, d0, t1, d0 + more),
{
    assert((d0 + more).subrange(0, d0.len() as int) =~= d0);
}

/// The number of records that are entered when the records `ws` are shown
/// in order to a storage that shows the objects `vis`: one for each hash
/// that is not shown when its turn comes.
pub open spec fn news(vis: Map<crate::hash::Hash, Seq<u8>>, ws: Seq<Pair>) -> nat
    decreases ws.len(),
{
    if ws.len() == 0 {
        0
    } else {
        news(put(vis, ws[0].0, ws[0].1), ws.skip(1)) + if vis.contains_key(ws[0].0) {
            0nat
        } else {
            1nat
        }
    }
}

/// The object count `c` with `k` more objects counted: it stops at the
/// largest count that the header can hold.
pub open spec fn counted(c: u64, k: nat) -> u64 {
    if c + k <= u64::MAX {
        (c + k) as u64
    } else {
        u64::MAX
    }
}

/// The position of the first of the records `ws` that such a database
/// refuses, or their number where it refuses none.
pub open spec fn refused_at(vis: Map<crate::hash::Hash, Seq<u8>>, free: nat, size: nat, ws: Seq<Pair>) -> nat
    decreases ws.len(),
{
    if ws.len() == 0 || refusal(vis, free, size, ws[0]) is Some {
        0
    } else {
        1 + refused_at(
            put(vis, ws[0].0, ws[0].1),
            free_after(vis, free, ws[0]),
            size_after(vis, size, ws[0]),
            ws.skip(1),
        )
    }
}

/// The object database: the hash table and the records of the database
/// file, and the records that wait to be written.
pub struct Storage {
    count: u64,
    reserved: Vec<u8>,
    table: Vec<u64>,
    data: Vec<u8>,
    pending_writes: Vec<PendingStorageWrite>,
}

impl Storage {
    /// The object count of the file header.
    pub closed spec fn count(&self) -> u64 {
        self.count
    }

    /// The buckets of the hash table.
    pub closed spec fn buckets(&self) -> Seq<u64> {
        self.table@
    }

    /// The records of the file, from the first record on.
    pub closed spec fn records(&self) -> Seq<u8> {
        self.data@
    }

    /// The reserved bytes of the file header.
    pub closed spec fn reserved_bytes(&self) -> Seq<u8> {
        self.reserved@
    }

    /// The number of empty buckets.
    pub open spec fn free(&self) -> nat {
        zeros(self.buckets())
    }

    /// The number of bytes of records.
    pub open spec fn size(&self) -> nat {
        self.records().len()
    }

    /// The object count of the file header.
    pub fn object_count(&self) -> (n: u64)
        ensures
            n == self.count(),
    {
        self.count
    }

    /// A hash that no pending record has is pending under no position.
    proof fn lemma_not_pending(&self, hash: crate::hash::Hash)
        requires
            forall|k: int|
                0 <= k < self.pending_writes@.len() ==> (#[trigger] self.pending_writes@[k]).hash
                    != hash,
        ensures
            put_all(self.visible(), self.pending()).contains_key(hash)
                == self.visible().contains_key(hash),
    {
        let s = self.pending();
        assert forall|k: int| 0 <= k < s.len() implies (#[trigger] s[k]).0 != hash by {
            assert(self.pending_writes@[k].hash != hash);
        }
        lemma_put_all_absent(self.visible(), s, hash);
    }

    /// A hash that a pending record has is known.
    proof fn lemma_is_pending(&self, hash: crate::hash::Hash, i: int)
        requires
            0 <= i < self.pending_writes@.len(),
            self.pending_writes@[i].hash == hash,
            forall|k: int| 0 <= k < i ==> (#[trigger] self.pending_writes@[k]).hash != hash,
        ensures
            put_all(self.visible(), self.pending()).contains_key(hash),
    {
        let s = self.pending();
        if self.visible().contains_key(hash) {
            lemma_put_all_keeps(self.visible(), s, hash);
        } else {
            assert(s[i].0 == hash);
            assert forall|k: int| 0 <= k < i implies (#[trigger] s[k]).0 != hash by {
                assert(self.pending_writes@[k].hash != hash);
            }
            lemma_put_all_first(self.visible(), s, hash, i);
        }
    }

    /// Enters `bytes` under `hash`, unless the hash is stored already.
    fn store(&mut self, hash: &crate::hash::Hash, bytes: &[u8]) -> (r: Result<(), Error>)
        requires
            old(self).wf(),
        ensures
            final(self).wf(),
            final(self).pending() == old(self).pending(),
            final(self).keeps(old(self)),
            part_of(old(self).visible(), final(self).visible()),
            match r {
                Ok(_) => refusal(old(self).visible(), old(self).free(), old(self).size(), (*hash, bytes@)) is None
                    && final(self).count() == counted(
                    old(self).count(),
                    if old(self).visible().contains_key(*hash) {
                        0nat
                    } else {
                        1nat
                    },
                ) && final(self).visible() == put(old(self).visible(), *hash, bytes@)
                    && final(self).free() == free_after(old(self).visible(), old(self).free(), (*hash, bytes@))
                    && final(self).size() == size_after(old(self).visible(), old(self).size(), (*hash, bytes@)),
                Err(e) => refusal(old(self).visible(), old(self).free(), old(self).size(), (*hash, bytes@))
                    == Some(e) && final(self).visible() == old(self).visible(),
            },
    {
        proof {
            lemma_kept_same(self.table@, self.data@);
        }
        match find_bucket(&self.table, &self.data, hash) {
            Some(b) => {
                assert(self.visible().contains_key(*hash));
                return Ok(());
            },
            None => {},
        }
        if bytes.len() > u32::MAX as usize {
            return Err(Error::StoreFull);
        }
        match insert_record(&mut self.table, &mut self.data, hash, bytes) {
            Ok(()) => {
                proof {
                    lemma_kept_more(
                        old(self).table@,
                        old(self).data@,
                        self.table@,
                        crate::table::record_bytes(*hash, bytes@),
                    );
                }
                self.count = if self.count < u64::MAX { self.count + 1 } else { self.count };
                Ok(())
            },
            Err(e) => Err(e),
        }
    }
}

/// The version of the database file format.
pub const STORAGE_VERSION: u32 = 1;

/// The magic of the database file: `VXOB`.
pub open spec fn db_magic() -> Seq<u8> {
    seq![0x56u8, 0x58u8, 0x4fu8, 0x42u8]
}

/// The database file: the magic, the version, the object count, the offset
/// of the first record, the reserved bytes, the buckets and the records.
pub open spec fn db_image(count: u64, reserved: Seq<u8>, table: Seq<u64>, data: Seq<u8>) -> Seq<u8> {
    db_magic() + u32_le(STORAGE_VERSION) + u64_le(count) + u64_le(DATA_START) + reserved + column(
        table,
        enc_u64(),
    ) + data
}

/// Whether these parts make up a database file: the reserved bytes fill the
/// header, and the table is sound.
pub open spec fn db_ok(reserved: Seq<u8>, table: Seq<u64>, data: Seq<u8>) -> bool {
    reserved.len() == HEADER_SIZE - 24 && table_ok(table, data)
}

/// A file read from the front, field by field, agrees with any database
/// whose file it is. The first `k` fields have been read: the magic `m`, the
/// version `v`, the count `c`, the offset `ds` of the first record, the
/// reserved bytes `rv` and the buckets `t`, each followed by the bytes `r1`
/// to `r6`.
pub proof fn lemma_db_fields(
    count: u64,
    reserved: Seq<u8>,
    table: Seq<u64>,
    data: Seq<u8>,
    rest0: Seq<u8>,
    k: int,
    m: Seq<u8>,
    r1: Seq<u8>,
    v: u32,
    r2: Seq<u8>,
    c: u64,
    r3: Seq<u8>,
    ds: u64,
    r4: Seq<u8>,
    rv: Seq<u8>,
    r5: Seq<u8>,
    t: Seq<u64>,
    r6: Seq<u8>,
)
    requires
        reserved.len() == HEADER_SIZE - 24,
        table.len() == HASH_TABLE_BUCKETS,
        rest0 == db_image(count, reserved, table, data),
        k >= 1 ==> m.len() == 4 && rest0 == m + r1,
        k >= 2 ==> r1 == u32_le(v) + r2,
        k >= 3 ==> r2 == u64_le(c) + r3,
        k >= 4 ==> r3 == u64_le(ds) + r4,
        k >= 5 ==> rv.len() == HEADER_SIZE - 24 && r4 == rv + r5,
        k >= 6 ==> t.len() == HASH_TABLE_BUCKETS && r5 == column(t, enc_u64()) + r6,
    ensures
        rest0.len() >= 4,
        k >= 1 ==> m == db_magic() && r1.len() >= 4,
        k >= 2 ==> v == STORAGE_VERSION && r2.len() >= 8,
        k >= 3 ==> c == count && r3.len() >= 8,
        k >= 4 ==> ds == DATA_START && r4.len() >= HEADER_SIZE - 24,
        k >= 5 ==> rv == reserved && r5.len() >= 8 * HASH_TABLE_BUCKETS,
        k >= 6 ==> t == table && r6 == data,
{
    lemma_int_le();
    lemma_encoders();
    lemma_column_len(table, enc_u64(), 8);
    let q5 = column(table, enc_u64()) + data;
    let q4 = reserved + q5;
    let q3 = u64_le(DATA_START) + q4;
    let q2 = u64_le(count) + q3;
    let q1 = u32_le(STORAGE_VERSION) + q2;
    assert(db_image(count, reserved, table, data) =~= db_magic() + q1);
    if k >= 1 {
        lemma_split_at(m, r1, db_magic(), q1);
    }
    if k >= 2 {
        crate::wire::lemma_u32_le_injective(v, STORAGE_VERSION, r2, q2);
    }
    if k >= 3 {
        lemma_split_at(u64_le(c), r3, u64_le(count), q3);
    }
    if k >= 4 {
        lemma_split_at(u64_le(ds), r4, u64_le(DATA_START), q4);
    }
    if k >= 5 {
        lemma_split_at(rv, r5, reserved, q5);
    }
    if k >= 6 {
        lemma_column_injective(t, r6, table, data, enc_u64(), 8);
    }
}

/// A file whose fields were read as in `lemma_db_fields` up to field `k`,
/// where the next field cannot be read, the magic, the version or the
/// offset of the first record is another, or the table is not sound, is the
/// file of no database.
pub proof fn lemma_db_unreadable(
    rest0: Seq<u8>,
    k: int,
    m: Seq<u8>,
    r1: Seq<u8>,
    v: u32,
    r2: Seq<u8>,
    c: u64,
    r3: Seq<u8>,
    ds: u64,
    r4: Seq<u8>,
    rv: Seq<u8>,
    r5: Seq<u8>,
    t: Seq<u64>,
    r6: Seq<u8>,
)
    requires
        0 <= k <= 6,
        k >= 1 ==> m.len() == 4 && rest0 == m + r1,
        k >= 2 ==> r1 == u32_le(v) + r2,
        k >= 3 ==> r2 == u64_le(c) + r3,
        k >= 4 ==> r3 == u64_le(ds) + r4,
        k >= 5 ==> rv.len() == HEADER_SIZE - 24 && r4 == rv + r5,
        k >= 6 ==> t.len() == HASH_TABLE_BUCKETS && r5 == column(t, enc_u64()) + r6,
        k == 0 ==> rest0.len() < 4,
        k == 1 ==> r1.len() < 4 || m != db_magic(),
        k == 2 ==> r2.len() < 8 || v != STORAGE_VERSION,
        k == 3 ==> r3.len() < 8,
        k == 4 ==> r4.len() < HEADER_SIZE - 24 || ds != DATA_START,
        k == 5 ==> r5.len() < 8 * HASH_TABLE_BUCKETS,
        k == 6 ==> !table_ok(t, r6),
    ensures
        forall|count: u64, reserved: Seq<u8>, table: Seq<u64>, data: Seq<u8>|
            db_ok(reserved, table, data) ==> rest0 != #[trigger] db_image(
                count,
                reserved,
                table,
                data,
            ),
{
    assert forall|count: u64, reserved: Seq<u8>, table: Seq<u64>, data: Seq<u8>|
        db_ok(reserved, table, data) implies rest0 != #[trigger] db_image(
        count,
        reserved,
        table,
        data,
    ) by {
        if rest0 == db_image(count, reserved, table, data) {
            lemma_db_fields(
                count,
                reserved,
                table,
                data,
                rest0,
                k,
                m,
                r1,
                v,
                r2,
                c,
                r3,
                ds,
                r4,
                rv,
                r5,
                t,
                r6,
            );
        }
    }
}

impl Storage {
    /// What the storage shows is what its table holds.
    pub proof fn lemma_visible(&self)
        ensures
            self.visible() == table_map(self.buckets(), self.records()),
            self.wf() == db_ok(self.reserved_bytes(), self.buckets(), self.records()),
    {
    }

    /// Whether the database keeps what `old` held: the records of `old`
    /// stand where they stood, with records behind them at most, and every
    /// bucket that was taken in `old` points where it pointed.
    pub open spec fn keeps(&self, old: &Storage) -> bool {
        kept(old.buckets(), old.records(), self.buckets(), self.records())
    }

    /// The number of bytes of records.
    pub fn records_len(&self) -> (n: usize)
        ensures
            n == self.size(),
    {
        self.data.len()
    }

    /// The records from byte `start` on: what was appended since the
    /// records were `start` bytes long.
    pub fn records_from(&self, start: usize) -> (r: &[u8])
        requires
            start <= self.size(),
        ensures
            r@ == self.records().skip(start as int),
    {
        let all = self.data.as_slice();
        let r = vstd::slice::slice_subrange(all, start, all.len());
        assert(r@ =~= self.data@.skip(start as int));
        r
    }

    /// The header and the hash table of the database file: all of the file
    /// that stands before the records.
    pub fn to_head(&self) -> (head: Vec<u8>)
        requires
            self.wf(),
        ensures
            head@ + self.records() == db_image(
                self.count(),
                self.reserved_bytes(),
                self.buckets(),
                self.records(),
            ),
            head@.len() == DATA_START,
    {
        let mut head: Vec<u8> = Vec::new();
        head.push(0x56);
        head.push(0x58);
        head.push(0x4f);
        head.push(0x42);
        assert(head@ =~= db_magic());
        let mut w = WriteCursor::new(&mut head);
        w.write_u32(STORAGE_VERSION);
        w.write_u64(self.count);
        w.write_u64(DATA_START);
        w.write_slice(self.reserved.as_slice());
        write_u64s(&mut w, self.table.as_slice());
        proof {
            lemma_int_le();
            lemma_encoders();
            lemma_column_len(self.table@, enc_u64(), 8);
            assert(w.written() + self.data@ =~= db_image(
                self.count,
                self.reserved@,
                self.table@,
                self.data@,
            ));
        }
        head
    }

    /// A database with no objects.
    pub fn create_new() -> (s: Self)
        ensures
            s.wf(),
            s.count() == 0,
            s.visible() == Map::<crate::hash::Hash, Seq<u8>>::empty(),
            s.pending() == Seq::<Pair>::empty(),
            s.free() == HASH_TABLE_BUCKETS,
            s.size() == 0,
    {
        let mut reserved: Vec<u8> = Vec::new();
        let mut i: usize = 0;
        while i < HEADER_SIZE - 24
            invariant
                i <= HEADER_SIZE - 24,
                reserved@.len() == i,
            decreases HEADER_SIZE - 24 - i,
        {
            reserved.push(0);
            i += 1;
        }
        let s = Storage {
            count: 0,
            reserved,
            table: empty_table(),
            data: Vec::new(),
            pending_writes: Vec::new(),
        };
        assert(s.data@ =~= Seq::<u8>::empty());
        assert(s.pending() =~= Seq::<Pair>::empty());
        proof {
            lemma_zeros_all(s.table@);
        }
        s
    }

    /// The database file.
    pub fn to_image(&self) -> (image: Vec<u8>)
        requires
            self.wf(),
        ensures
            image@ == db_image(
                self.count(),
                self.reserved_bytes(),
                self.buckets(),
                self.records(),
            ),
    {
        let mut image: Vec<u8> = Vec::new();
        image.push(0x56);
        image.push(0x58);
        image.push(0x4f);
        image.push(0x42);
        assert(image@ =~= db_magic());
        let mut w = WriteCursor::new(&mut image);
        w.write_u32(STORAGE_VERSION);
        w.write_u64(self.count);
        w.write_u64(DATA_START);
        w.write_slice(self.reserved.as_slice());
        write_u64s(&mut w, self.table.as_slice());
        w.write_slice(self.data.as_slice());
        assert(w.written() =~= db_image(self.count, self.reserved@, self.table@, self.data@));
        image
    }

    /// Opens a database file. It succeeds exactly when `image` is the file
    /// of a database whose table is sound, and holds that database with
    /// nothing pending; anything else is `CorruptObjectDatabase`.
    #[verifier::spinoff_prover]
    pub fn open_existing(image: &[u8]) -> (r: Result<Self, Error>)
        ensures
            match r {
                Ok(s) => s.wf() && s.pending() == Seq::<Pair>::empty() && image@ == db_image(
                    s.count(),
                    s.reserved_bytes(),
                    s.buckets(),
                    s.records(),
                ),
                Err(e) => e == Error::CorruptObjectDatabase && forall|
                    count: u64,
                    reserved: Seq<u8>,
                    table: Seq<u64>,
                    data: Seq<u8>,
                |
                    db_ok(reserved, table, data) ==> image@ != #[trigger] db_image(
                        count,
                        reserved,
                        table,
                        data,
                    ),
            },
    {
        let mut r = ReadCursor::new(image);
        let ghost rest0 = r.rest();
        let ghost e0 = Seq::<u8>::empty();
        let ghost t0 = Seq::<u64>::empty();
        let m = match r.read_bytes(4) {
            Ok(m) => m,
            Err(e) => {
                proof {
                    lemma_db_unreadable(rest0, 0, e0, e0, 0, e0, 0, e0, 0, e0, e0, e0, t0, e0);
                }
                return Err(e);
            },
        };
        let ghost r1 = r.rest();
        let magic_ok = m[0] == 0x56 && m[1] == 0x58 && m[2] == 0x4f && m[3] == 0x42;
        assert(magic_ok == (m@ =~= db_magic()));
        let v = match r.read_u32() {
            Ok(v) => v,
            Err(e) => {
                proof {
                    lemma_db_unreadable(rest0, 1, m@, r1, 0, e0, 0, e0, 0, e0, e0, e0, t0, e0);
                }
                return Err(e);
            },
        };
        if !magic_ok {
            proof {
                lemma_db_unreadable(rest0, 1, m@, r1, 0, e0, 0, e0, 0, e0, e0, e0, t0, e0);
            }
            return Err(Error::CorruptObjectDatabase);
        }
        let ghost r2 = r.rest();
        let c = match r.read_u64() {
            Ok(c) => c,
            Err(e) => {
                proof {
                    lemma_db_unreadable(rest0, 2, m@, r1, v, r2, 0, e0, 0, e0, e0, e0, t0, e0);
                }
                return Err(e);
            },
        };
        if v != STORAGE_VERSION {
            proof {
                lemma_db_unreadable(rest0, 2, m@, r1, v, r2, 0, e0, 0, e0, e0, e0, t0, e0);
            }
            return Err(Error::CorruptObjectDatabase);
        }
        let ghost r3 = r.rest();
        let ds = match r.read_u64() {
            Ok(ds) => ds,
            Err(e) => {
                proof {
                    lemma_db_unreadable(rest0, 3, m@, r1, v, r2, c, r3, 0, e0, e0, e0, t0, e0);
                }
                return Err(e);
            },
        };
        let ghost r4 = r.rest();
        let rv = match r.read_bytes(HEADER_SIZE - 24) {
            Ok(rv) => rv,
            Err(e) => {
                proof {
                    lemma_db_unreadable(rest0, 4, m@, r1, v, r2, c, r3, ds, r4, e0, e0, t0, e0);
                }
                return Err(e);
            },
        };
        if ds != DATA_START {
            proof {
                lemma_db_unreadable(rest0, 4, m@, r1, v, r2, c, r3, ds, r4, e0, e0, t0, e0);
            }
            return Err(Error::CorruptObjectDatabase);
        }
        let ghost r5 = r.rest();
        let table = match read_u64s(&mut r, HASH_TABLE_BUCKETS) {
            Ok(t) => t,
            Err(e) => {
                proof {
                    lemma_db_unreadable(rest0, 5, m@, r1, v, r2, c, r3, ds, r4, rv@, r5, t0, e0);
                }
                return Err(e);
            },
        };
        let ghost r6 = r.rest();
        let data = slice_to_vec(r.remaining());
        if !check_table(&table, &data) {
            proof {
                lemma_db_unreadable(rest0, 6, m@, r1, v, r2, c, r3, ds, r4, rv@, r5, table@, r6);
            }
            return Err(Error::CorruptObjectDatabase);
        }
        let s = Storage {
            count: c,
            reserved: slice_to_vec(rv),
            table,
            data,
            pending_writes: Vec::new(),
        };
        proof {
            assert(s.pending() =~= Seq::<Pair>::empty());
            assert(rest0 =~= db_image(c, rv@, s.table@, r6));
        }
        Ok(s)
    }
}

impl MogStorage for Storage {
    closed spec fn wf(&self) -> bool {
        &&& table_ok(self.table@, self.data@)
        &&& self.reserved@.len() == HEADER_SIZE - 24
    }

    closed spec fn visible(&self) -> Map<crate::hash::Hash, Seq<u8>> {
        table_map(self.table@, self.data@)
    }

    closed spec fn pending(&self) -> Seq<Pair> {
        pairs(self.pending_writes@)
    }

    open spec fn buffers(&self) -> bool {
        true
    }

    open spec fn accepts(&self, n: nat) -> bool {
        n <= u32::MAX
    }

    open spec fn shows(&self, ws: Seq<Pair>) -> Result<(), Error> {
        shown(self.visible(), self.free(), self.size(), ws)
    }

    fn can_accept(&self, n: usize) -> (r: bool) {
        n <= u32::MAX as usize
    }

    fn contains(&self, hash: &crate::hash::Hash) -> (r: bool) {
        find_bucket(&self.table, &self.data, hash).is_some()
    }

    fn read<'a>(&'a self, hash: &crate::hash::Hash) -> (r: Result<&'a [u8], Error>) {
        match find_bucket(&self.table, &self.data, hash) {
            Some(b) => {
                proof {
                    let c = choose|c: int| stored_at(self.table@, self.data@, hash@, c);
                    if c != b {
                        assert(rec_hash(self.data@, self.table@[c]) != rec_hash(
                            self.data@,
                            self.table@[b as int],
                        ));
                    }
                }
                Ok(record_at(&self.table, &self.data, b))
            },
            None => Err(Error::NotFound),
        }
    }

    fn write(&mut self, hash: crate::hash::Hash, data: Vec<u8>)
        ensures
            final(self).count() == old(self).count(),
            final(self).buckets() == old(self).buckets(),
            final(self).records() == old(self).records(),
    {
        if self.contains(&hash) {
            proof {
                lemma_put_all_keeps(self.visible(), self.pending(), hash);
            }
            return ;
        }
        match find_record(&self.pending_writes, &hash) {
            Some(i) => {
                proof {
                    self.lemma_is_pending(hash, i as int);
                }
            },
            None => {
                proof {
                    self.lemma_not_pending(hash);
                }
                let ghost d = data@;
                self.pending_writes.push(PendingStorageWrite { hash, data });
                assert(self.pending() =~= old(self).pending().push((hash, d)));
            },
        }
    }

    fn write_batch(&mut self, writes: &[PendingStorageWrite]) -> (r: Result<(), Error>)
        ensures
            final(self).keeps(old(self)),
            final(self).visible() == put_all(
                old(self).visible(),
                pairs(writes@).take(
                    refused_at(
                        old(self).visible(),
                        old(self).free(),
                        old(self).size(),
                        pairs(writes@),
                    ) as int,
                ),
            ),
            r is Ok ==> final(self).count() == counted(
                old(self).count(),
                news(old(self).visible(), pairs(writes@)),
            ) && final(self).free() + news(old(self).visible(), pairs(writes@)) == old(self).free(),
    {
        let ghost all = pairs(writes@);
        assert(all.take(0) =~= Seq::<Pair>::empty());
        assert(all.skip(0) =~= all);
        proof {
            lemma_kept_same(self.table@, self.data@);
        }
        let n = writes.len();
        let mut i: usize = 0;
        while i < n
            invariant
                self.wf(),
                i <= n,
                n == writes@.len(),
                all == pairs(writes@),
                self.pending() == old(self).pending(),
                self.visible() == put_all(old(self).visible(), all.take(i as int)),
                old(self).shows(all) == self.shows(all.skip(i as int)),
                counted(old(self).count(), news(old(self).visible(), all)) == counted(
                    self.count(),
                    news(self.visible(), all.skip(i as int)),
                ),
                old(self).free() - news(old(self).visible(), all) == self.free() - news(
                    self.visible(),
                    all.skip(i as int),
                ),
                self.keeps(old(self)),
                refused_at(old(self).visible(), old(self).free(), old(self).size(), all) == i
                    + refused_at(self.visible(), self.free(), self.size(), all.skip(i as int)),
            decreases n - i,
        {
            proof {
                assert(all.take(i + 1).drop_last() =~= all.take(i as int));
                assert(all.take(i + 1).last() == (writes@[i as int].hash, writes@[i as int].data@));
                lemma_put_all_extends(old(self).visible(), all.take(i as int));
                assert(all.skip(i as int)[0] == (writes@[i as int].hash, writes@[i as int].data@));
                assert(all.skip(i as int).skip(1) =~= all.skip(i + 1));
            }
            let ghost t1 = self.table@;
            let ghost d1 = self.data@;
            let stored = self.store(&writes[i].hash, writes[i].data.as_slice());
            proof {
                lemma_kept_then(old(self).table@, old(self).data@, t1, d1, self.table@, self.data@);
            }
            match stored {
                Ok(()) => {},
                Err(e) => {
                    return Err(e);
                },
            }
            i += 1;
        }
        proof {
            assert(all.take(n as int) =~= all);
            lemma_put_all_extends(old(self).visible(), all);
        }
        Ok(())
    }

    fn flush(&mut self) -> (r: Result<(), Error>)
        ensures
            final(self).keeps(old(self)),
            final(self).visible() == put_all(
                old(self).visible(),
                old(self).pending().take(
                    refused_at(
                        old(self).visible(),
                        old(self).free(),
                        old(self).size(),
                        old(self).pending(),
                    ) as int,
                ),
            ),
            r is Ok ==> final(self).count() == counted(
                old(self).count(),
                news(old(self).visible(), old(self).pending()),
            ) && final(self).free() + news(old(self).visible(), old(self).pending()) == old(self).free(),
    {
        let ghost all = self.pending();
        assert(all.take(0) =~= Seq::<Pair>::empty());
        assert(all.skip(0) =~= all);
        proof {
            lemma_kept_same(self.table@, self.data@);
        }
        let n = self.pending_writes.len();
        let mut i: usize = 0;
        while i < n
            invariant
                self.wf(),
                i <= n,
                n == self.pending_writes@.len(),
                all == self.pending(),
                all == old(self).pending(),
                self.visible() == put_all(old(self).visible(), all.take(i as int)),
                old(self).shows(all) == self.shows(all.skip(i as int)),
                counted(old(self).count(), news(old(self).visible(), all)) == counted(
                    self.count(),
                    news(self.visible(), all.skip(i as int)),
                ),
                old(self).free() - news(old(self).visible(), all) == self.free() - news(
                    self.visible(),
                    all.skip(i as int),
                ),
                self.keeps(old(self)),
                refused_at(old(self).visible(), old(self).free(), old(self).size(), all) == i
                    + refused_at(self.visible(), self.free(), self.size(), all.skip(i as int)),
            decreases n - i,
        {
            proof {
                assert(all.take(i + 1).drop_last() =~= all.take(i as int));
                assert(all.take(i + 1).last() == (
                    self.pending_writes@[i as int].hash,
                    self.pending_writes@[i as int].data@,
                ));
                lemma_put_all_extends(old(self).visible(), all.take(i as int));
                assert(all.skip(i as int)[0] == (
                    self.pending_writes@[i as int].hash,
                    self.pending_writes@[i as int].data@,
                ));
                assert(all.skip(i as int).skip(1) =~= all.skip(i + 1));
            }
            let hash = self.pending_writes[i].hash;
            let found = find_bucket(&self.table, &self.data, &hash).is_some();
            if !found {
                if self.pending_writes[i].data.len() > u32::MAX as usize {
                    return Err(Error::StoreFull);
                }
                let ghost t1 = self.table@;
                let ghost d1 = self.data@;
                match insert_record(
                    &mut self.table,
                    &mut self.data,
                    &hash,
                    self.pending_writes[i].data.as_slice(),
                ) {
                    Ok(()) => {
                        proof {
                            lemma_kept_more(
                                t1,
                                d1,
                                self.table@,
                                crate::table::record_bytes(hash, self.pending_writes@[i as int].data@),
                            );
                            lemma_kept_then(
                                old(self).table@,
                                old(self).data@,
                                t1,
                                d1,
                                self.table@,
                                self.data@,
                            );
                        }
                        self.count = if self.count < u64::MAX { self.count + 1 } else { self.count };
                    },
                    Err(e) => {
                        return Err(e);
                    },
                }
            }
            i += 1;
        }
        proof {
            assert(all.take(n as int) =~= all);
            lemma_put_all_extends(old(self).visible(), all);
        }
        self.pending_writes.clear();
        assert(self.pending() =~= Seq::<Pair>::empty());
        Ok(())
    }

    fn sync(&mut self) -> (r: Result<(), Error>)
        ensures
            final(self).count() == old(self).count(),
            final(self).buckets() == old(self).buckets(),
            final(self).records() == old(self).records(),
    {
        Ok(())
    }
}

} // verus!
