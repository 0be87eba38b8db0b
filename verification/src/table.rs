//! The hash table of the object database: open addressing with linear
//! probing over a fixed number of buckets. A bucket holds the file offset
//! of a record, or 0 where it is empty; a record is a hash, the length of
//! the encoded object and the encoded object.

use crate::error::Error;
use crate::util::bytes_eq;
use crate::wire::{
    lemma_int_le, u32_from_le, u32_from_le_bytes, u32_le, u32_to_le_bytes, u64_from_le,
    u64_from_le_bytes,
};
use vstd::prelude::*;
use vstd::slice::slice_subrange;

verus! {

/// The number of buckets: 2^21.
pub const HASH_TABLE_BUCKETS: usize = 2097152;

/// The size of the file header.
pub const HEADER_SIZE: usize = 128;

/// The file offset of the first record: behind the header and the table.
pub const DATA_START: u64 = 16777344;

/// The bytes of a record in front of the encoded object: the hash and the
/// length.
pub const ENTRY_HEADER_SIZE: usize = 36;

/// The bucket at which the search for a hash begins: the low 64 bits of the
/// hash, modulo the number of buckets.
pub open spec fn home_of(h: Seq<u8>) -> int {
    (u64_from_le(h.subrange(0, 8)) as int) % (HASH_TABLE_BUCKETS as int)
}

/// The bucket `j` steps behind bucket `b`, around the table.
pub open spec fn step(b: int, j: int) -> int {
    (b + j) % (HASH_TABLE_BUCKETS as int)
}

/// The number of steps from bucket `a` to bucket `b`, around the table.
pub open spec fn dist(a: int, b: int) -> int {
    (b - a + HASH_TABLE_BUCKETS as int) % (HASH_TABLE_BUCKETS as int)
}

/// The hash of the record at file offset `off`.
pub open spec fn rec_hash(data: Seq<u8>, off: u64) -> Seq<u8> {
    data.subrange(off - DATA_START, off - DATA_START + 32)
}

/// The length of the encoded object of the record at file offset `off`.
pub open spec fn rec_size(data: Seq<u8>, off: u64) -> u32 {
    u32_from_le(data.subrange(off - DATA_START + 32, off - DATA_START + 36))
}

/// The encoded object of the record at file offset `off`.
pub open spec fn rec_data(data: Seq<u8>, off: u64) -> Seq<u8> {
    data.subrange(off - DATA_START + 36, off - DATA_START + 36 + rec_size(data, off))
}

/// The record at file offset `off` lies within the records.
pub open spec fn rec_ok(data: Seq<u8>, off: u64) -> bool {
    DATA_START <= off && off - DATA_START + 36 + rec_size(data, off) <= data.len()
}

/// The bucket `j` steps behind the bucket at which the search for the hash
/// in bucket `b` begins.
pub open spec fn path_slot(table: Seq<u64>, data: Seq<u8>, b: int, j: int) -> u64 {
    table[step(home_of(rec_hash(data, table[b])), j)]
}

/// The hash `h` is stored in bucket `b`.
pub open spec fn stored_at(table: Seq<u64>, data: Seq<u8>, h: Seq<u8>, b: int) -> bool {
    0 <= b < HASH_TABLE_BUCKETS && table[b] != 0 && rec_hash(data, table[b]) == h
}

/// The table is sound: every taken bucket points at a record within the
/// records; no bucket between the bucket at which the search for a stored
/// hash begins and the bucket that holds it is empty; and no hash is stored
/// twice.
pub open spec fn table_ok(table: Seq<u64>, data: Seq<u8>) -> bool {
    &&& table.len() == HASH_TABLE_BUCKETS
    &&& forall|b: int| 0 <= b < HASH_TABLE_BUCKETS && #[trigger] table[b] != 0 ==> rec_ok(data, table[b])
    &&& forall|b: int, j: int|
        0 <= b < HASH_TABLE_BUCKETS && table[b] != 0 && 0 <= j < dist(
            home_of(rec_hash(data, table[b])),
            b,
        ) ==> #[trigger] path_slot(table, data, b, j) != 0
    &&& forall|b1: int, b2: int|
        0 <= b1 < HASH_TABLE_BUCKETS && 0 <= b2 < HASH_TABLE_BUCKETS && b1 != b2 && table[b1] != 0
            && table[b2] != 0 ==> #[trigger] rec_hash(data, table[b1]) != #[trigger] rec_hash(
            data,
            table[b2],
        )
}

/// The number of empty buckets among `table`.
pub open spec fn zeros(table: Seq<u64>) -> nat
    decreases table.len(),
{
    if table.len() == 0 {
        0
    } else {
        zeros(table.drop_last()) + if table.last() == 0 {
            1nat
        } else {
            0nat
        }
    }
}

/// Buckets with an empty one among them count at least one empty bucket,
/// and buckets without one count none.
pub proof fn lemma_zeros_some(table: Seq<u64>)
    ensures
        zeros(table) > 0 <==> exists|b: int| 0 <= b < table.len() && table[b] == 0,
    decreases table.len(),
{
    if table.len() > 0 {
        let front = table.drop_last();
        lemma_zeros_some(front);
        if zeros(table) > 0 {
            if table.last() == 0 {
                assert(table[table.len() - 1] == 0);
            } else {
                let b = choose|b: int| 0 <= b < front.len() && front[b] == 0;
                assert(table[b] == 0);
            }
        } else {
            assert forall|b: int| 0 <= b < table.len() implies table[b] != 0 by {
                if b < front.len() {
                    assert(front[b] == table[b]);
                }
            }
        }
    }
}

/// A bucket that is taken leaves one empty bucket less.
pub proof fn lemma_zeros_taken(table: Seq<u64>, b: int, off: u64)
    requires
        0 <= b < table.len(),
        table[b] == 0,
        off != 0,
    ensures
        zeros(table.update(b, off)) + 1 == zeros(table),
    decreases table.len(),
{
    let front = table.drop_last();
    if b == table.len() - 1 {
        assert(table.update(b, off).drop_last() =~= front);
    } else {
        lemma_zeros_taken(front, b, off);
        assert(table.update(b, off).drop_last() =~= front.update(b, off));
    }
}

/// Buckets that are all empty count as many empty buckets as there are.
pub proof fn lemma_zeros_all(table: Seq<u64>)
    requires
        forall|b: int| 0 <= b < table.len() ==> table[b] == 0,
    ensures
        zeros(table) == table.len(),
    decreases table.len(),
{
    if table.len() > 0 {
        lemma_zeros_all(table.drop_last());
    }
}

/// Whether a record of `len` bytes behind `size` bytes of records stays
/// within what the machine can address.
pub open spec fn record_fits(size: nat, len: nat) -> bool {
    DATA_START + size + ENTRY_HEADER_SIZE + len <= usize::MAX
}

/// What the table holds: the encoded object of each stored hash.
pub open spec fn table_map(table: Seq<u64>, data: Seq<u8>) -> Map<crate::hash::Hash, Seq<u8>> {
    Map::new(
        |h: crate::hash::Hash| exists|b: int| stored_at(table, data, h@, b),
        |h: crate::hash::Hash| rec_data(data, table[choose|b: int| stored_at(table, data, h@, b)]),
    )
}

/// The bytes of a record.
pub open spec fn record_bytes(h: crate::hash::Hash, bytes: Seq<u8>) -> Seq<u8> {
    h@ + u32_le(bytes.len() as u32) + bytes
}

/// Steps around the table stay within it, and the steps from one bucket to
/// another lead there.
pub proof fn lemma_steps(a: int, b: int)
    requires
        0 <= a < HASH_TABLE_BUCKETS,
        0 <= b < HASH_TABLE_BUCKETS,
    ensures
        0 <= dist(a, b) < HASH_TABLE_BUCKETS,
        step(a, dist(a, b)) == b,
        forall|j: int| 0 <= j < HASH_TABLE_BUCKETS ==> 0 <= #[trigger] step(a, j) < HASH_TABLE_BUCKETS,
        forall|j: int|
            0 <= j < HASH_TABLE_BUCKETS && #[trigger] step(a, j) == b ==> j == dist(a, b),
{
}

/// The bucket at which the search for `hash` begins.
pub fn home(hash: &crate::hash::Hash) -> (b: usize)
    ensures
        b == home_of(hash@),
        b < HASH_TABLE_BUCKETS,
{
    let low = u64_from_le_bytes(slice_subrange(hash.as_slice(), 0, 8));
    (low % (HASH_TABLE_BUCKETS as u64)) as usize
}

/// Whether the record at file offset `off` has the hash `hash`.
fn has_hash(data: &Vec<u8>, off: u64, hash: &crate::hash::Hash) -> (r: bool)
    requires
        rec_ok(data@, off),
    ensures
        r == (rec_hash(data@, off) == hash@),
{
    let n = data.len();
    assert(off - DATA_START + 36 <= n);
    let pos = (off - DATA_START) as usize;
    bytes_eq(slice_subrange(data.as_slice(), pos, pos + 32), hash.as_slice())
}

/// The next bucket, around the table.
fn next_bucket(cur: usize) -> (n: usize)
    requires
        cur < HASH_TABLE_BUCKETS,
    ensures
        n == step(cur as int, 1),
        n < HASH_TABLE_BUCKETS,
{
    if cur + 1 == HASH_TABLE_BUCKETS {
        0
    } else {
        cur + 1
    }
}

/// The bucket that holds `hash`, if one does.
pub fn find_bucket(table: &Vec<u64>, data: &Vec<u8>, hash: &crate::hash::Hash) -> (r: Option<usize>)
    requires
        table_ok(table@, data@),
    ensures
        match r {
            Some(b) => stored_at(table@, data@, hash@, b as int),
            None => forall|b: int| !stored_at(table@, data@, hash@, b),
        },
{
    let start = home(hash);
    let mut cur = start;
    let mut s: usize = 0;
    while s < HASH_TABLE_BUCKETS
        invariant
            s <= HASH_TABLE_BUCKETS,
            start < HASH_TABLE_BUCKETS,
            cur < HASH_TABLE_BUCKETS,
            start == home_of(hash@),
            cur == step(start as int, s as int),
            table_ok(table@, data@),
            forall|j: int|
                0 <= j < s ==> table@[#[trigger] step(start as int, j)] != 0 && rec_hash(
                    data@,
                    table@[step(start as int, j)],
                ) != hash@,
        decreases HASH_TABLE_BUCKETS - s,
    {
        let off = table[cur];
        if off == 0 {
            proof {
                assert forall|b: int| !stored_at(table@, data@, hash@, b) by {
                    if stored_at(table@, data@, hash@, b) {
                        lemma_steps(start as int, b);
                        let d = dist(start as int, b);
                        if s < d {
                            assert(path_slot(table@, data@, b, s as int) != 0);
                        } else if s > d {
                            assert(table@[step(start as int, d)] != 0);
                        }
                    }
                }
            }
            return None;
        }
        if has_hash(data, off, hash) {
            return Some(cur);
        }
        cur = next_bucket(cur);
        s += 1;
    }
    proof {
        assert forall|b: int| !stored_at(table@, data@, hash@, b) by {
            if stored_at(table@, data@, hash@, b) {
                lemma_steps(start as int, b);
                let d = dist(start as int, b);
                assert(table@[step(start as int, d)] != 0);
            }
        }
    }
    None
}

/// The first empty bucket on the way of `hash`, if the table has one.
pub fn free_bucket(table: &Vec<u64>, hash: &crate::hash::Hash) -> (r: Option<usize>)
    requires
        table@.len() == HASH_TABLE_BUCKETS,
    ensures
        match r {
            Some(b) => b < HASH_TABLE_BUCKETS && table@[b as int] == 0 && forall|j: int|
                0 <= j < dist(home_of(hash@), b as int) ==> table@[#[trigger] step(
                    home_of(hash@),
                    j,
                )] != 0,
            None => forall|b: int| 0 <= b < HASH_TABLE_BUCKETS ==> #[trigger] table@[b] != 0,
        },
{
    let start = home(hash);
    let mut cur = start;
    let mut s: usize = 0;
    while s < HASH_TABLE_BUCKETS
        invariant
            s <= HASH_TABLE_BUCKETS,
            start < HASH_TABLE_BUCKETS,
            cur < HASH_TABLE_BUCKETS,
            start == home_of(hash@),
            cur == step(start as int, s as int),
            table@.len() == HASH_TABLE_BUCKETS,
            forall|j: int| 0 <= j < s ==> table@[#[trigger] step(start as int, j)] != 0,
        decreases HASH_TABLE_BUCKETS - s,
    {
        if table[cur] == 0 {
            proof {
                lemma_steps(start as int, cur as int);
            }
            return Some(cur);
        }
        cur = next_bucket(cur);
        s += 1;
    }
    proof {
        assert forall|b: int| 0 <= b < HASH_TABLE_BUCKETS implies #[trigger] table@[b] != 0 by {
            lemma_steps(start as int, b);
            assert(table@[step(start as int, dist(start as int, b))] != 0);
        }
    }
    None
}

/// The encoded object of the record in bucket `b`.
pub fn record_at<'a>(table: &Vec<u64>, data: &'a Vec<u8>, b: usize) -> (r: &'a [u8])
    requires
        table_ok(table@, data@),
        b < HASH_TABLE_BUCKETS,
        table@[b as int] != 0,
    ensures
        r@ == rec_data(data@, table@[b as int]),
{
    let off = table[b];
    let n = data.len();
    assert(rec_ok(data@, off));
    assert(off - DATA_START + 36 <= n);
    let pos = (off - DATA_START) as usize;
    let size = u32_from_le_bytes(slice_subrange(data.as_slice(), pos + 32, pos + 36)) as usize;
    slice_subrange(data.as_slice(), pos + 36, pos + 36 + size)
}

/// A record that is appended leaves the records before it as they were.
pub proof fn lemma_append_keeps(data: Seq<u8>, more: Seq<u8>, off: u64)
    requires
        rec_ok(data, off),
    ensures
        rec_ok(data + more, off),
        rec_hash(data + more, off) == rec_hash(data, off),
        rec_size(data + more, off) == rec_size(data, off),
        rec_data(data + more, off) == rec_data(data, off),
{
    let pos = off - DATA_START;
    assert((data + more).subrange(pos + 32, pos + 36) =~= data.subrange(pos + 32, pos + 36));
    assert((data + more).subrange(pos, pos + 32) =~= data.subrange(pos, pos + 32));
    let size = rec_size(data, off);
    assert((data + more).subrange(pos + 36, pos + 36 + size) =~= data.subrange(
        pos + 36,
        pos + 36 + size,
    ));
}

/// A record that is appended can be read back.
pub proof fn lemma_appended(data: Seq<u8>, h: crate::hash::Hash, bytes: Seq<u8>)
    requires
        bytes.len() <= u32::MAX,
        DATA_START + data.len() <= u64::MAX,
    ensures
        ({
            let off = (DATA_START + data.len()) as u64;
            let all = data + record_bytes(h, bytes);
            &&& rec_ok(all, off)
            &&& rec_hash(all, off) == h@
            &&& rec_size(all, off) == bytes.len()
            &&& rec_data(all, off) == bytes
        }),
{
    lemma_int_le();
    let off = (DATA_START + data.len()) as u64;
    let all = data + record_bytes(h, bytes);
    let pos = data.len() as int;
    assert(all.subrange(pos, pos + 32) =~= h@);
    assert(all.subrange(pos + 32, pos + 36) =~= u32_le(bytes.len() as u32));
    assert(all.subrange(pos + 36, pos + 36 + bytes.len()) =~= bytes);
}

/// A sound table with a new hash entered in the first empty bucket on its
/// way, pointing at its record appended to the records, is sound and holds
/// what it held and the new object.
pub proof fn lemma_insert(
    table: Seq<u64>,
    data: Seq<u8>,
    h: crate::hash::Hash,
    bytes: Seq<u8>,
    b: int,
)
    requires
        table_ok(table, data),
        bytes.len() <= u32::MAX,
        DATA_START + data.len() <= u64::MAX,
        0 <= b < HASH_TABLE_BUCKETS,
        table[b] == 0,
        forall|j: int| 0 <= j < dist(home_of(h@), b) ==> table[#[trigger] step(home_of(h@), j)] != 0,
        forall|x: int| !stored_at(table, data, h@, x),
    ensures
        table_ok(table.update(b, (DATA_START + data.len()) as u64), data + record_bytes(h, bytes)),
        table_map(table.update(b, (DATA_START + data.len()) as u64), data + record_bytes(h, bytes))
            == table_map(table, data).insert(h, bytes),
{
    let off = (DATA_START + data.len()) as u64;
    let t2 = table.update(b, off);
    let d2 = data + record_bytes(h, bytes);
    lemma_appended(data, h, bytes);
    assert forall|x: int| 0 <= x < HASH_TABLE_BUCKETS && table[x] != 0 implies rec_ok(d2, table[x])
        && rec_hash(d2, table[x]) == rec_hash(data, table[x]) && rec_data(d2, table[x])
        == rec_data(data, table[x]) by {
        lemma_append_keeps(data, record_bytes(h, bytes), table[x]);
    }
    assert forall|x: int| 0 <= x < HASH_TABLE_BUCKETS && #[trigger] t2[x] != 0 implies rec_ok(
        d2,
        t2[x],
    ) by {
        if x != b {
            assert(table[x] != 0);
        }
    }
    assert forall|x: int, j: int|
        0 <= x < HASH_TABLE_BUCKETS && t2[x] != 0 && 0 <= j < dist(
            home_of(rec_hash(d2, t2[x])),
            x,
        ) implies #[trigger] path_slot(t2, d2, x, j) != 0 by {
        let hm = home_of(rec_hash(d2, t2[x]));
        lemma_steps(hm, x);
        let y = step(hm, j);
        if y != b {
            if x != b {
                assert(table[x] != 0);
                assert(path_slot(table, data, x, j) != 0);
            } else {
                assert(table[step(home_of(h@), j)] != 0);
            }
        }
    }
    assert forall|b1: int, b2: int|
        0 <= b1 < HASH_TABLE_BUCKETS && 0 <= b2 < HASH_TABLE_BUCKETS && b1 != b2 && t2[b1] != 0
            && t2[b2] != 0 implies #[trigger] rec_hash(d2, t2[b1]) != #[trigger] rec_hash(
        d2,
        t2[b2],
    ) by {
        if b1 == b {
            assert(table[b2] != 0);
            assert(!stored_at(table, data, h@, b2));
        } else if b2 == b {
            assert(table[b1] != 0);
            assert(!stored_at(table, data, h@, b1));
        } else {
            assert(table[b1] != 0 && table[b2] != 0);
            assert(rec_hash(data, table[b1]) != rec_hash(data, table[b2]));
        }
    }
    let m1 = table_map(table, data);
    let m2 = table_map(t2, d2);
    assert forall|k: crate::hash::Hash| m2.contains_key(k) == m1.insert(h, bytes).contains_key(
        k,
    ) by {
        if m2.contains_key(k) {
            let x = choose|x: int| stored_at(t2, d2, k@, x);
            if x != b {
                assert(stored_at(table, data, k@, x));
            } else {
                assert(k@ == h@);
                assert(k =~= h);
            }
        }
        if m1.contains_key(k) {
            let x = choose|x: int| stored_at(table, data, k@, x);
            assert(x != b);
            assert(stored_at(t2, d2, k@, x));
        }
        if k == h {
            assert(stored_at(t2, d2, k@, b));
        }
    }
    assert forall|k: crate::hash::Hash| m2.contains_key(k) implies m2[k] == m1.insert(h, bytes)[k] by {
        let x = choose|x: int| stored_at(t2, d2, k@, x);
        if k == h {
            if x != b {
                assert(stored_at(table, data, h@, x));
            }
        } else {
            if x == b {
                assert(k@ == h@);
                assert(k =~= h);
            }
            let y = choose|y: int| stored_at(table, data, k@, y);
            assert(stored_at(table, data, k@, x));
            if x != y {
                assert(rec_hash(data, table[x]) != rec_hash(data, table[y]));
            }
        }
    }
    assert(m2 =~= m1.insert(h, bytes));
}

/// Enters the object `bytes` under `hash`, which the table does not hold:
/// appends its record and points the first empty bucket on its way at it.
/// A table without an empty bucket is `HashTableFull`, and records that
/// would not fit the file offsets are `StoreFull`; both leave everything as
/// it was.
pub fn insert_record(
    table: &mut Vec<u64>,
    data: &mut Vec<u8>,
    hash: &crate::hash::Hash,
    bytes: &[u8],
) -> (r: Result<(), Error>)
    requires
        table_ok(old(table)@, old(data)@),
        bytes@.len() <= u32::MAX,
        forall|x: int| !stored_at(old(table)@, old(data)@, hash@, x),
    ensures
        table_ok(final(table)@, final(data)@),
        r is Ok <==> record_fits(old(data)@.len(), bytes@.len()) && zeros(old(table)@) > 0,
        match r {
            Ok(_) => table_map(final(table)@, final(data)@) == table_map(
                old(table)@,
                old(data)@,
            ).insert(*hash, bytes@) && final(data)@ == old(data)@ + record_bytes(*hash, bytes@)
                && (forall|x: int|
                0 <= x < HASH_TABLE_BUCKETS && old(table)@[x] != 0 ==> #[trigger] final(table)@[x]
                    == old(table)@[x])
                && final(data)@.len() == old(data)@.len() + ENTRY_HEADER_SIZE + bytes@.len()
                && zeros(final(table)@) + 1 == zeros(old(table)@),
            Err(e) => final(table)@ == old(table)@ && final(data)@ == old(data)@ && e == if record_fits(
                old(data)@.len(),
                bytes@.len(),
            ) {
                Error::HashTableFull
            } else {
                Error::StoreFull
            },
        },
{
    proof {
        lemma_zeros_some(table@);
    }
    let room = usize::MAX - DATA_START as usize;
    if data.len() > room || room - data.len() < 36 || room - data.len() - 36 < bytes.len() {
        return Err(Error::StoreFull);
    }
    let b = match free_bucket(table, hash) {
        Some(b) => b,
        None => {
            return Err(Error::HashTableFull);
        },
    };
    let off = DATA_START + data.len() as u64;
    proof {
        lemma_insert(table@, data@, *hash, bytes@, b as int);
        lemma_zeros_taken(table@, b as int, off);
        lemma_int_le();
    }
    data.extend_from_slice(hash.as_slice());
    let len = u32_to_le_bytes(bytes.len() as u32);
    data.extend_from_slice(len.as_slice());
    data.extend_from_slice(bytes);
    table.set(b, off);
    assert(data@ =~= old(data)@ + record_bytes(*hash, bytes@));
    Ok(())
}

/// Whether the record at file offset `off` lies within the records.
pub fn check_record(data: &Vec<u8>, off: u64) -> (r: bool)
    ensures
        r == rec_ok(data@, off),
{
    if off < DATA_START {
        return false;
    }
    let n = data.len();
    let pos = off - DATA_START;
    if pos > n as u64 || (n as u64) - pos < 36 {
        return false;
    }
    let p = pos as usize;
    let size = u32_from_le_bytes(slice_subrange(data.as_slice(), p + 32, p + 36));
    (n as u64) - pos - 36 >= size as u64
}

/// Bucket `b` is sound: it is empty, or it points at a record within the
/// records, and every bucket between the one at which the search for its
/// hash begins and itself points at a record of another hash.
pub open spec fn bucket_ok(table: Seq<u64>, data: Seq<u8>, b: int) -> bool {
    table[b] != 0 ==> rec_ok(data, table[b]) && forall|j: int|
        0 <= j < dist(home_of(rec_hash(data, table[b])), b) ==> {
            let y = #[trigger] path_slot(table, data, b, j);
            y != 0 && rec_ok(data, y) && rec_hash(data, y) != rec_hash(data, table[b])
        }
}

/// A table of sound buckets is sound, and the buckets of a sound table are
/// sound.
pub proof fn lemma_buckets_ok(table: Seq<u64>, data: Seq<u8>)
    requires
        table.len() == HASH_TABLE_BUCKETS,
    ensures
        table_ok(table, data) <==> forall|b: int|
            0 <= b < HASH_TABLE_BUCKETS ==> #[trigger] bucket_ok(table, data, b),
{
    if forall|b: int| 0 <= b < HASH_TABLE_BUCKETS ==> #[trigger] bucket_ok(table, data, b) {
        assert forall|b: int| 0 <= b < HASH_TABLE_BUCKETS && #[trigger] table[b] != 0 implies rec_ok(
            data,
            table[b],
        ) by {
            assert(bucket_ok(table, data, b));
        }
        assert forall|b: int, j: int|
            0 <= b < HASH_TABLE_BUCKETS && table[b] != 0 && 0 <= j < dist(
                home_of(rec_hash(data, table[b])),
                b,
            ) implies #[trigger] path_slot(table, data, b, j) != 0 by {
            assert(bucket_ok(table, data, b));
        }
        assert forall|b1: int, b2: int|
            0 <= b1 < HASH_TABLE_BUCKETS && 0 <= b2 < HASH_TABLE_BUCKETS && b1 != b2 && table[b1]
                != 0 && table[b2] != 0 implies #[trigger] rec_hash(data, table[b1])
            != #[trigger] rec_hash(data, table[b2]) by {
            if rec_hash(data, table[b1]) == rec_hash(data, table[b2]) {
                let hm = home_of(rec_hash(data, table[b1]));
                lemma_steps(hm, b1);
                lemma_steps(hm, b2);
                let d1 = dist(hm, b1);
                let d2 = dist(hm, b2);
                assert(bucket_ok(table, data, b1));
                assert(bucket_ok(table, data, b2));
                if d1 < d2 {
                    assert(path_slot(table, data, b2, d1) == table[b1]);
                } else {
                    assert(path_slot(table, data, b1, d2) == table[b2]);
                }
            }
        }
    }
    if table_ok(table, data) {
        assert forall|b: int| 0 <= b < HASH_TABLE_BUCKETS implies #[trigger] bucket_ok(
            table,
            data,
            b,
        ) by {
            if table[b] != 0 {
                let hm = home_of(rec_hash(data, table[b]));
                lemma_steps(hm, b);
                assert forall|j: int| 0 <= j < dist(hm, b) implies {
                    let y = #[trigger] path_slot(table, data, b, j);
                    y != 0 && rec_ok(data, y) && rec_hash(data, y) != rec_hash(data, table[b])
                } by {
                    let x = step(hm, j);
                    assert(path_slot(table, data, b, j) != 0);
                    assert(table[x] != 0);
                    assert(x != b);
                }
            }
        }
    }
}

/// Whether bucket `b` is sound.
fn check_bucket(table: &Vec<u64>, data: &Vec<u8>, b: usize) -> (r: bool)
    requires
        table@.len() == HASH_TABLE_BUCKETS,
        b < HASH_TABLE_BUCKETS,
    ensures
        r == bucket_ok(table@, data@, b as int),
{
    let off = table[b];
    if off == 0 {
        return true;
    }
    if !check_record(data, off) {
        return false;
    }
    let n = data.len();
    assert(off - DATA_START + 36 <= n);
    let pos = (off - DATA_START) as usize;
    let hash = crate::hash::hash_from_slice(slice_subrange(data.as_slice(), pos, pos + 32));
    let start = home(&hash);
    let mut cur = start;
    let mut s: usize = 0;
    proof {
        lemma_steps(start as int, b as int);
    }
    while cur != b
        invariant
            s < HASH_TABLE_BUCKETS,
            start < HASH_TABLE_BUCKETS,
            cur < HASH_TABLE_BUCKETS,
            b < HASH_TABLE_BUCKETS,
            table@.len() == HASH_TABLE_BUCKETS,
            table@[b as int] == off,
            off != 0,
            rec_ok(data@, off),
            hash@ == rec_hash(data@, off),
            start == home_of(hash@),
            cur == step(start as int, s as int),
            s <= dist(start as int, b as int),
            forall|j: int|
                0 <= j < s ==> {
                    let y = #[trigger] path_slot(table@, data@, b as int, j);
                    y != 0 && rec_ok(data@, y) && rec_hash(data@, y) != rec_hash(data@, off)
                },
        decreases dist(start as int, b as int) - s,
    {
        proof {
            lemma_steps(start as int, b as int);
        }
        let y = table[cur];
        assert(y == path_slot(table@, data@, b as int, s as int));
        if y == 0 || !check_record(data, y) || has_hash(data, y, &hash) {
            return false;
        }
        cur = next_bucket(cur);
        s += 1;
    }
    proof {
        lemma_steps(start as int, b as int);
    }
    true
}

/// Whether the table is sound.
pub fn check_table(table: &Vec<u64>, data: &Vec<u8>) -> (r: bool)
    requires
        table@.len() == HASH_TABLE_BUCKETS,
    ensures
        r == table_ok(table@, data@),
{
    proof {
        lemma_buckets_ok(table@, data@);
    }
    let mut b: usize = 0;
    while b < HASH_TABLE_BUCKETS
        invariant
            b <= HASH_TABLE_BUCKETS,
            table@.len() == HASH_TABLE_BUCKETS,
            forall|x: int| 0 <= x < b ==> #[trigger] bucket_ok(table@, data@, x),
        decreases HASH_TABLE_BUCKETS - b,
    {
        if !check_bucket(table, data, b) {
            return false;
        }
        b += 1;
    }
    true
}

/// A table of empty buckets.
pub fn empty_table() -> (table: Vec<u64>)
    ensures
        table@.len() == HASH_TABLE_BUCKETS,
        forall|b: int| 0 <= b < HASH_TABLE_BUCKETS ==> #[trigger] table@[b] == 0,
        table_ok(table@, Seq::empty()),
        table_map(table@, Seq::empty()) == Map::<crate::hash::Hash, Seq<u8>>::empty(),
{
    let mut table: Vec<u64> = Vec::with_capacity(HASH_TABLE_BUCKETS);
    let mut b: usize = 0;
    while b < HASH_TABLE_BUCKETS
        invariant
            b <= HASH_TABLE_BUCKETS,
            table@.len() == b,
            forall|x: int| 0 <= x < b ==> #[trigger] table@[x] == 0,
        decreases HASH_TABLE_BUCKETS - b,
    {
        table.push(0);
        b += 1;
    }
    proof {
        let e = Seq::<u8>::empty();
        assert forall|x: int, j: int|
            0 <= x < HASH_TABLE_BUCKETS && table@[x] != 0 && 0 <= j < dist(
                home_of(rec_hash(e, table@[x])),
                x,
            ) implies #[trigger] path_slot(table@, e, x, j) != 0 by {
            assert(table@[x] == 0);
        }
        assert(table_map(table@, e) =~= Map::<crate::hash::Hash, Seq<u8>>::empty());
    }
    table
}

} // verus!
