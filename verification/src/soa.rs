//! Parallel-array columns and packed string blobs: the layout shared by the
//! tree and commit payloads, the index file and the in-memory stores.
//!
//! A column is a sequence of fixed-width values written back to back. A
//! packed blob holds byte strings back to back, with one start offset per
//! string; a string ends where the next one starts, the last one at the end
//! of the blob.

use crate::error::Error;
use crate::wire::{i64_le, lemma_int_le, lemma_split_at, u32_le, u64_le, ReadCursor, WriteCursor};
use crate::util::checked_str;
use vstd::prelude::*;
use vstd::utf8::valid_utf8;

verus! {

/// The values of `xs`, each written by `enc`, back to back.
pub open spec fn column<T>(xs: Seq<T>, enc: spec_fn(T) -> Seq<u8>) -> Seq<u8>
    decreases xs.len(),
{
    if xs.len() == 0 {
        Seq::empty()
    } else {
        column(xs.drop_last(), enc) + enc(xs.last())
    }
}

/// How a `u32` is written.
pub open spec fn enc_u32() -> spec_fn(u32) -> Seq<u8> {
    |x: u32| u32_le(x)
}

/// How a `u64` is written.
pub open spec fn enc_u64() -> spec_fn(u64) -> Seq<u8> {
    |x: u64| u64_le(x)
}

/// How an `i64` is written.
pub open spec fn enc_i64() -> spec_fn(i64) -> Seq<u8> {
    |x: i64| i64_le(x)
}

/// How a hash is written.
pub open spec fn enc_hash() -> spec_fn(crate::hash::Hash) -> Seq<u8> {
    |h: crate::hash::Hash| h@
}

/// Whether `enc` writes every value in `w` bytes and different values
/// differently.
pub open spec fn fixed_width<T>(enc: spec_fn(T) -> Seq<u8>, w: nat) -> bool {
    &&& forall|x: T| #[trigger] enc(x).len() == w
    &&& forall|x: T, y: T| #[trigger] enc(x) == #[trigger] enc(y) ==> x == y
}

/// The four encoders are fixed-width and injective.
pub proof fn lemma_encoders()
    ensures
        fixed_width(enc_u32(), 4),
        fixed_width(enc_u64(), 8),
        fixed_width(enc_i64(), 8),
        fixed_width(enc_hash(), 32),
{
    lemma_int_le();
    assert forall|x: u32, y: u32| #[trigger] enc_u32()(x) == #[trigger] enc_u32()(y) implies x
        == y by {
        assert(u32_le(x) == u32_le(y));
    }
    assert forall|x: u64, y: u64| #[trigger] enc_u64()(x) == #[trigger] enc_u64()(y) implies x
        == y by {
        assert(u64_le(x) == u64_le(y));
    }
    assert forall|x: i64, y: i64| #[trigger] enc_i64()(x) == #[trigger] enc_i64()(y) implies x
        == y by {
        assert(i64_le(x) == i64_le(y));
    }
    assert forall|x: crate::hash::Hash, y: crate::hash::Hash| #[trigger]
        enc_hash()(x) == #[trigger] enc_hash()(y) implies x == y by {
        assert(x@ == y@);
        assert(x =~= y);
    }
    assert forall|x: crate::hash::Hash| #[trigger] enc_hash()(x).len() == 32 by {
        assert(x@.len() == 32);
    }
}

/// A column of `n` values of width `w` is `w * n` bytes long.
pub proof fn lemma_column_len<T>(xs: Seq<T>, enc: spec_fn(T) -> Seq<u8>, w: nat)
    requires
        fixed_width(enc, w),
    ensures
        column(xs, enc).len() == w * xs.len(),
    decreases xs.len(),
{
    if xs.len() > 0 {
        lemma_column_len(xs.drop_last(), enc, w);
        assert(w * xs.len() == w * (xs.len() - 1) + w) by (nonlinear_arith);
    } else {
        assert(w * xs.len() == 0) by (nonlinear_arith)
            requires
                xs.len() == 0,
        ;
    }
}

/// Appending a value appends its encoding.
pub proof fn lemma_column_push<T>(xs: Seq<T>, x: T, enc: spec_fn(T) -> Seq<u8>)
    ensures
        column(xs.push(x), enc) == column(xs, enc) + enc(x),
{
    assert(xs.push(x).drop_last() =~= xs);
}

/// The column of the first `i + 1` values is that of the first `i`, then
/// value `i`.
pub proof fn lemma_column_take<T>(xs: Seq<T>, i: int, enc: spec_fn(T) -> Seq<u8>)
    requires
        0 <= i < xs.len(),
    ensures
        column(xs.take(i + 1), enc) == column(xs.take(i), enc) + enc(xs[i]),
{
    assert(xs.take(i + 1).drop_last() =~= xs.take(i));
}

/// Columns of equal length that agree, each followed by anything, hold the
/// same values and are followed by the same bytes.
pub proof fn lemma_column_injective<T>(
    xs: Seq<T>,
    a: Seq<u8>,
    ys: Seq<T>,
    b: Seq<u8>,
    enc: spec_fn(T) -> Seq<u8>,
    w: nat,
)
    requires
        fixed_width(enc, w),
        xs.len() == ys.len(),
        column(xs, enc) + a == column(ys, enc) + b,
    ensures
        xs == ys,
        a == b,
    decreases xs.len(),
{
    lemma_column_len(xs, enc, w);
    lemma_column_len(ys, enc, w);
    lemma_split_at(column(xs, enc), a, column(ys, enc), b);
    if xs.len() > 0 {
        lemma_column_len(xs.drop_last(), enc, w);
        lemma_column_len(ys.drop_last(), enc, w);
        lemma_column_injective(
            xs.drop_last(),
            enc(xs.last()),
            ys.drop_last(),
            enc(ys.last()),
            enc,
            w,
        );
        assert(xs =~= xs.drop_last().push(xs.last()));
        assert(ys =~= ys.drop_last().push(ys.last()));
    } else {
        assert(xs =~= ys);
    }
}

/// The byte strings of `ss`, back to back.
pub open spec fn cat(ss: Seq<Seq<u8>>) -> Seq<u8>
    decreases ss.len(),
{
    if ss.len() == 0 {
        Seq::empty()
    } else {
        cat(ss.drop_last()) + ss.last()
    }
}

/// Where each string of `ss` starts in `cat(ss)`.
pub open spec fn starts(ss: Seq<Seq<u8>>) -> Seq<u32> {
    Seq::new(ss.len(), |i: int| cat(ss.take(i)).len() as u32)
}

/// Where string `i` of a packed blob ends.
pub open spec fn packed_end(offsets: Seq<u32>, blob_len: int, i: int) -> int {
    if i + 1 < offsets.len() {
        offsets[i + 1] as int
    } else {
        blob_len
    }
}

/// Whether offsets and blob are a packing: the first string starts at 0,
/// every string ends at or after its start and within the blob, and the blob
/// is no longer than a `u32` can say.
pub open spec fn packed_ok(offsets: Seq<u32>, blob: Seq<u8>) -> bool {
    &&& blob.len() <= u32::MAX
    &&& offsets.len() == 0 ==> blob.len() == 0
    &&& offsets.len() > 0 ==> offsets[0] == 0
    &&& forall|i: int|
        0 <= i < offsets.len() ==> offsets[i] <= #[trigger] packed_end(
            offsets,
            blob.len() as int,
            i,
        ) <= blob.len()
}

/// String `i` of a packed blob.
pub open spec fn packed_at(offsets: Seq<u32>, blob: Seq<u8>, i: int) -> Seq<u8> {
    blob.subrange(offsets[i] as int, packed_end(offsets, blob.len() as int, i))
}

/// Whether every string of a packed blob is well-formed UTF-8.
pub open spec fn packed_utf8(offsets: Seq<u32>, blob: Seq<u8>) -> bool {
    forall|i: int| 0 <= i < offsets.len() ==> valid_utf8(#[trigger] packed_at(offsets, blob, i))
}

/// The strings of a packed blob.
pub open spec fn unpack(offsets: Seq<u32>, blob: Seq<u8>) -> Seq<Seq<u8>> {
    Seq::new(offsets.len(), |i: int| packed_at(offsets, blob, i))
}

/// The strings before `i`, back to back, are a prefix of all of them.
pub proof fn lemma_cat_take(ss: Seq<Seq<u8>>, i: int)
    requires
        0 <= i <= ss.len(),
    ensures
        cat(ss.take(i)).len() <= cat(ss).len(),
        cat(ss).subrange(0, cat(ss.take(i)).len() as int) == cat(ss.take(i)),
        i < ss.len() ==> cat(ss.take(i + 1)) == cat(ss.take(i)) + ss[i],
    decreases ss.len() - i,
{
    if i == ss.len() {
        assert(ss.take(i) =~= ss);
        assert(cat(ss).subrange(0, cat(ss).len() as int) =~= cat(ss));
    } else {
        assert(ss.take(i + 1).drop_last() =~= ss.take(i));
        lemma_cat_take(ss, i + 1);
        let whole = cat(ss);
        let next = cat(ss.take(i + 1));
        let here = cat(ss.take(i));
        assert(whole.subrange(0, here.len() as int) =~= next.subrange(0, here.len() as int));
        assert(next.subrange(0, here.len() as int) =~= here);
    }
}

/// Appending a string appends its bytes.
pub proof fn lemma_cat_push(ss: Seq<Seq<u8>>, s: Seq<u8>)
    ensures
        cat(ss.push(s)) == cat(ss) + s,
{
    assert(ss.push(s).drop_last() =~= ss);
}

/// String `i` of the packing of `ss` is `ss[i]`, and lies within the blob.
pub proof fn lemma_pack_at(ss: Seq<Seq<u8>>, i: int)
    requires
        cat(ss).len() <= u32::MAX,
        0 <= i < ss.len(),
    ensures
        starts(ss)[i] as int == cat(ss.take(i)).len(),
        packed_end(starts(ss), cat(ss).len() as int, i) == cat(ss.take(i + 1)).len(),
        starts(ss)[i] <= packed_end(starts(ss), cat(ss).len() as int, i) <= cat(ss).len(),
        packed_at(starts(ss), cat(ss), i) == ss[i],
{
    let blob = cat(ss);
    lemma_cat_take(ss, i);
    lemma_cat_take(ss, i + 1);
    let a = cat(ss.take(i)).len() as int;
    let b = cat(ss.take(i + 1)).len() as int;
    assert(b == a + ss[i].len());
    if i + 1 == ss.len() {
        assert(ss.take(i + 1) =~= ss);
    }
    assert(blob.subrange(a, b) =~= blob.subrange(0, b).subrange(a, b));
    assert((cat(ss.take(i)) + ss[i]).subrange(a, b) =~= ss[i]);
}

/// Packing strings and unpacking them gives the strings back.
pub proof fn lemma_pack_unpack(ss: Seq<Seq<u8>>)
    requires
        cat(ss).len() <= u32::MAX,
    ensures
        packed_ok(starts(ss), cat(ss)),
        unpack(starts(ss), cat(ss)) == ss,
{
    let offs = starts(ss);
    let blob = cat(ss);
    if ss.len() > 0 {
        assert(ss.take(0) =~= Seq::<Seq<u8>>::empty());
        lemma_pack_at(ss, 0);
    }
    assert forall|i: int| 0 <= i < offs.len() implies offs[i] <= #[trigger] packed_end(
        offs,
        blob.len() as int,
        i,
    ) <= blob.len() by {
        lemma_pack_at(ss, i);
    }
    assert forall|i: int| 0 <= i < ss.len() implies unpack(offs, blob)[i] == ss[i] by {
        lemma_pack_at(ss, i);
    }
    assert(unpack(offs, blob) =~= ss);
}

/// Unpacking a packing and packing the strings again gives the same offsets
/// and blob.
pub proof fn lemma_unpack_pack(offsets: Seq<u32>, blob: Seq<u8>)
    requires
        packed_ok(offsets, blob),
    ensures
        starts(unpack(offsets, blob)) == offsets,
        cat(unpack(offsets, blob)) == blob,
{
    let ss = unpack(offsets, blob);
    let n = offsets.len() as int;
    lemma_unpack_prefix(offsets, blob, n);
    assert(ss.take(n) =~= ss);
    assert forall|i: int| 0 <= i < n implies starts(ss)[i] == offsets[i] by {
        lemma_unpack_prefix(offsets, blob, i);
    }
    assert(starts(ss) =~= offsets);
    if n > 0 {
        assert(offsets[n - 1] <= packed_end(offsets, blob.len() as int, n - 1));
    }
    assert(blob.subrange(0, blob.len() as int) =~= blob);
}

/// The first `i` strings of a packing, back to back, are the blob up to the
/// start of string `i`.
pub proof fn lemma_unpack_prefix(offsets: Seq<u32>, blob: Seq<u8>, i: int)
    requires
        packed_ok(offsets, blob),
        0 <= i <= offsets.len(),
    ensures
        cat(unpack(offsets, blob).take(i)) == blob.subrange(
            0,
            if i < offsets.len() {
                offsets[i] as int
            } else {
                blob.len() as int
            },
        ),
    decreases i,
{
    let ss = unpack(offsets, blob);
    if i == 0 {
        assert(ss.take(0) =~= Seq::<Seq<u8>>::empty());
        if offsets.len() > 0 {
            assert(offsets[0] == 0);
        }
        assert(blob.subrange(0, 0) =~= Seq::<u8>::empty());
    } else {
        lemma_unpack_prefix(offsets, blob, i - 1);
        assert(ss.take(i).drop_last() =~= ss.take(i - 1));
        assert(ss.take(i).last() == ss[i - 1]);
        let a = offsets[i - 1] as int;
        let b = packed_end(offsets, blob.len() as int, i - 1);
        assert(offsets[i - 1] <= packed_end(offsets, blob.len() as int, i - 1) <= blob.len());
        assert(blob.subrange(0, a) + blob.subrange(a, b) =~= blob.subrange(0, b));
    }
}

/// Appending a string to a packing: the new string starts where the blob
/// ended, and the strings before it stay as they were.
pub proof fn lemma_packed_push(offsets: Seq<u32>, blob: Seq<u8>, s: Seq<u8>)
    requires
        packed_ok(offsets, blob),
        blob.len() + s.len() <= u32::MAX,
    ensures
        packed_ok(offsets.push(blob.len() as u32), blob + s),
        unpack(offsets.push(blob.len() as u32), blob + s) == unpack(offsets, blob).push(s),
{
    let offs2 = offsets.push(blob.len() as u32);
    let blob2 = blob + s;
    let n = offsets.len() as int;
    assert forall|i: int| 0 <= i < offs2.len() implies offs2[i] <= #[trigger] packed_end(
        offs2,
        blob2.len() as int,
        i,
    ) <= blob2.len() by {
        if i < n {
            assert(offsets[i] <= packed_end(offsets, blob.len() as int, i) <= blob.len());
        }
    }
    assert forall|i: int| 0 <= i < offs2.len() implies unpack(offs2, blob2)[i] == unpack(
        offsets,
        blob,
    ).push(s)[i] by {
        if i < n {
            assert(offsets[i] <= packed_end(offsets, blob.len() as int, i) <= blob.len());
            assert(packed_end(offs2, blob2.len() as int, i) == packed_end(
                offsets,
                blob.len() as int,
                i,
            ));
            assert(packed_at(offs2, blob2, i) =~= packed_at(offsets, blob, i));
        } else {
            assert(packed_at(offs2, blob2, i) =~= s);
        }
    }
    assert(unpack(offs2, blob2) =~= unpack(offsets, blob).push(s));
}

/// Appends a column of `u32`s.
pub fn write_u32s(w: &mut WriteCursor<'_>, xs: &[u32])
    ensures
        final(w).written() == old(w).written() + column(xs@, enc_u32()),
        *final(final(w).buf) == *final(old(w).buf),
{
    let n = xs.len();
    let mut i: usize = 0;
    assert(xs@.take(0) =~= Seq::<u32>::empty());
    assert(w.written() =~= old(w).written() + column(xs@.take(0), enc_u32()));
    while i < n
        invariant
            i <= n,
            n == xs@.len(),
            w.written() == old(w).written() + column(xs@.take(i as int), enc_u32()),
            *final(w.buf) == *final(old(w).buf),
        decreases n - i,
    {
        let ghost before = w.written();
        w.write_u32(xs[i]);
        proof {
            lemma_column_take(xs@, i as int, enc_u32());
            assert(w.written() =~= old(w).written() + column(xs@.take(i + 1), enc_u32()));
        }
        i += 1;
    }
    assert(xs@.take(n as int) =~= xs@);
}

/// Appends a column of `u64`s.
pub fn write_u64s(w: &mut WriteCursor<'_>, xs: &[u64])
    ensures
        final(w).written() == old(w).written() + column(xs@, enc_u64()),
        *final(final(w).buf) == *final(old(w).buf),
{
    let n = xs.len();
    let mut i: usize = 0;
    assert(xs@.take(0) =~= Seq::<u64>::empty());
    assert(w.written() =~= old(w).written() + column(xs@.take(0), enc_u64()));
    while i < n
        invariant
            i <= n,
            n == xs@.len(),
            w.written() == old(w).written() + column(xs@.take(i as int), enc_u64()),
            *final(w.buf) == *final(old(w).buf),
        decreases n - i,
    {
        w.write_u64(xs[i]);
        proof {
            lemma_column_take(xs@, i as int, enc_u64());
            assert(w.written() =~= old(w).written() + column(xs@.take(i + 1), enc_u64()));
        }
        i += 1;
    }
    assert(xs@.take(n as int) =~= xs@);
}

/// Appends a column of `i64`s.
pub fn write_i64s(w: &mut WriteCursor<'_>, xs: &[i64])
    ensures
        final(w).written() == old(w).written() + column(xs@, enc_i64()),
        *final(final(w).buf) == *final(old(w).buf),
{
    let n = xs.len();
    let mut i: usize = 0;
    assert(xs@.take(0) =~= Seq::<i64>::empty());
    assert(w.written() =~= old(w).written() + column(xs@.take(0), enc_i64()));
    while i < n
        invariant
            i <= n,
            n == xs@.len(),
            w.written() == old(w).written() + column(xs@.take(i as int), enc_i64()),
            *final(w.buf) == *final(old(w).buf),
        decreases n - i,
    {
        w.write_i64(xs[i]);
        proof {
            lemma_column_take(xs@, i as int, enc_i64());
            assert(w.written() =~= old(w).written() + column(xs@.take(i + 1), enc_i64()));
        }
        i += 1;
    }
    assert(xs@.take(n as int) =~= xs@);
}

/// Appends a column of hashes.
pub fn write_hashes(w: &mut WriteCursor<'_>, xs: &[crate::hash::Hash])
    ensures
        final(w).written() == old(w).written() + column(xs@, enc_hash()),
        *final(final(w).buf) == *final(old(w).buf),
{
    let n = xs.len();
    let mut i: usize = 0;
    assert(xs@.take(0) =~= Seq::<crate::hash::Hash>::empty());
    assert(w.written() =~= old(w).written() + column(xs@.take(0), enc_hash()));
    while i < n
        invariant
            i <= n,
            n == xs@.len(),
            w.written() == old(w).written() + column(xs@.take(i as int), enc_hash()),
            *final(w.buf) == *final(old(w).buf),
        decreases n - i,
    {
        w.write_hash(&xs[i]);
        proof {
            lemma_column_take(xs@, i as int, enc_hash());
            assert(w.written() =~= old(w).written() + column(xs@.take(i + 1), enc_hash()));
        }
        i += 1;
    }
    assert(xs@.take(n as int) =~= xs@);
}

/// Reads a column of `n` `u32`s, or fails if fewer than `4 * n` bytes are
/// left.
pub fn read_u32s(r: &mut ReadCursor<'_>, n: usize) -> (res: Result<Vec<u32>, Error>)
    ensures
        match res {
            Ok(v) => v@.len() == n && old(r).rest() == column(v@, enc_u32()) + final(r).rest(),
            Err(e) => e == Error::CorruptObjectDatabase && old(r).rest().len() < 4 * n,
        },
{
    let mut v: Vec<u32> = Vec::new();
    let mut i: usize = 0;
    assert(old(r).rest() =~= column(v@, enc_u32()) + r.rest());
    while i < n
        invariant
            i <= n,
            v@.len() == i,
            old(r).rest() == column(v@, enc_u32()) + r.rest(),
        decreases n - i,
    {
        proof {
            lemma_encoders();
            lemma_column_len(v@, enc_u32(), 4);
        }
        let ghost before = r.rest();
        match r.read_u32() {
            Ok(x) => {
                proof {
                    lemma_column_push(v@, x, enc_u32());
                    assert(old(r).rest() =~= column(v@.push(x), enc_u32()) + r.rest());
                }
                v.push(x);
            },
            Err(e) => {
                return Err(e);
            },
        }
        i += 1;
    }
    Ok(v)
}

/// Reads a column of `n` `u64`s, or fails if fewer than `8 * n` bytes are
/// left.
pub fn read_u64s(r: &mut ReadCursor<'_>, n: usize) -> (res: Result<Vec<u64>, Error>)
    ensures
        match res {
            Ok(v) => v@.len() == n && old(r).rest() == column(v@, enc_u64()) + final(r).rest(),
            Err(e) => e == Error::CorruptObjectDatabase && old(r).rest().len() < 8 * n,
        },
{
    let mut v: Vec<u64> = Vec::new();
    let mut i: usize = 0;
    assert(old(r).rest() =~= column(v@, enc_u64()) + r.rest());
    while i < n
        invariant
            i <= n,
            v@.len() == i,
            old(r).rest() == column(v@, enc_u64()) + r.rest(),
        decreases n - i,
    {
        proof {
            lemma_encoders();
            lemma_column_len(v@, enc_u64(), 8);
        }
        match r.read_u64() {
            Ok(x) => {
                proof {
                    lemma_column_push(v@, x, enc_u64());
                    assert(old(r).rest() =~= column(v@.push(x), enc_u64()) + r.rest());
                }
                v.push(x);
            },
            Err(e) => {
                return Err(e);
            },
        }
        i += 1;
    }
    Ok(v)
}

/// Reads a column of `n` `i64`s, or fails if fewer than `8 * n` bytes are
/// left.
pub fn read_i64s(r: &mut ReadCursor<'_>, n: usize) -> (res: Result<Vec<i64>, Error>)
    ensures
        match res {
            Ok(v) => v@.len() == n && old(r).rest() == column(v@, enc_i64()) + final(r).rest(),
            Err(e) => e == Error::CorruptObjectDatabase && old(r).rest().len() < 8 * n,
        },
{
    let mut v: Vec<i64> = Vec::new();
    let mut i: usize = 0;
    assert(old(r).rest() =~= column(v@, enc_i64()) + r.rest());
    while i < n
        invariant
            i <= n,
            v@.len() == i,
            old(r).rest() == column(v@, enc_i64()) + r.rest(),
        decreases n - i,
    {
        proof {
            lemma_encoders();
            lemma_column_len(v@, enc_i64(), 8);
        }
        match r.read_i64() {
            Ok(x) => {
                proof {
                    lemma_column_push(v@, x, enc_i64());
                    assert(old(r).rest() =~= column(v@.push(x), enc_i64()) + r.rest());
                }
                v.push(x);
            },
            Err(e) => {
                return Err(e);
            },
        }
        i += 1;
    }
    Ok(v)
}

/// Reads a column of `n` hashes, or fails if fewer than `32 * n` bytes are
/// left.
pub fn read_hashes(r: &mut ReadCursor<'_>, n: usize) -> (res: Result<
    Vec<crate::hash::Hash>,
    Error,
>)
    ensures
        match res {
            Ok(v) => v@.len() == n && old(r).rest() == column(v@, enc_hash()) + final(r).rest(),
            Err(e) => e == Error::CorruptObjectDatabase && old(r).rest().len() < 32 * n,
        },
{
    let mut v: Vec<crate::hash::Hash> = Vec::new();
    let mut i: usize = 0;
    assert(old(r).rest() =~= column(v@, enc_hash()) + r.rest());
    while i < n
        invariant
            i <= n,
            v@.len() == i,
            old(r).rest() == column(v@, enc_hash()) + r.rest(),
        decreases n - i,
    {
        proof {
            lemma_encoders();
            lemma_column_len(v@, enc_hash(), 32);
        }
        match r.read_hash() {
            Ok(x) => {
                proof {
                    lemma_column_push(v@, x, enc_hash());
                    assert(old(r).rest() =~= column(v@.push(x), enc_hash()) + r.rest());
                }
                v.push(x);
            },
            Err(e) => {
                return Err(e);
            },
        }
        i += 1;
    }
    Ok(v)
}

/// Whether offsets and blob are a packing.
pub fn check_packed(offsets: &[u32], blob: &[u8]) -> (ok: bool)
    ensures
        ok == packed_ok(offsets@, blob@),
{
    if blob.len() > u32::MAX as usize {
        return false;
    }
    let n = offsets.len();
    if n == 0 {
        return blob.len() == 0;
    }
    if offsets[0] != 0 {
        return false;
    }
    let mut i: usize = 0;
    while i < n
        invariant
            i <= n,
            n == offsets@.len(),
            blob@.len() <= u32::MAX,
            forall|j: int|
                0 <= j < i ==> offsets@[j] <= #[trigger] packed_end(
                    offsets@,
                    blob@.len() as int,
                    j,
                ) <= blob@.len(),
        decreases n - i,
    {
        let end = if i + 1 < n { offsets[i + 1] as usize } else { blob.len() };
        if offsets[i] as usize > end || end > blob.len() {
            assert(!(offsets@[i as int] <= packed_end(offsets@, blob@.len() as int, i as int)
                <= blob@.len()));
            return false;
        }
        i += 1;
    }
    true
}

/// Whether every string of a packing is well-formed UTF-8.
pub fn check_packed_utf8(offsets: &[u32], blob: &[u8]) -> (ok: bool)
    requires
        packed_ok(offsets@, blob@),
    ensures
        ok == packed_utf8(offsets@, blob@),
{
    let n = offsets.len();
    let mut i: usize = 0;
    while i < n
        invariant
            i <= n,
            n == offsets@.len(),
            packed_ok(offsets@, blob@),
            forall|j: int| 0 <= j < i ==> valid_utf8(#[trigger] packed_at(offsets@, blob@, j)),
        decreases n - i,
    {
        let s = packed_get(offsets, blob, i);
        if checked_str(s).is_none() {
            return false;
        }
        i += 1;
    }
    true
}

/// String `i` of a packing.
pub fn packed_get<'a>(offsets: &[u32], blob: &'a [u8], i: usize) -> (s: &'a [u8])
    requires
        packed_ok(offsets@, blob@),
        i < offsets@.len(),
    ensures
        s@ == packed_at(offsets@, blob@, i as int),
{
    let start = offsets[i] as usize;
    let end = if i + 1 < offsets.len() { offsets[i + 1] as usize } else { blob.len() };
    assert(offsets@[i as int] <= packed_end(offsets@, blob@.len() as int, i as int) <= blob@.len());
    vstd::slice::slice_subrange(blob, start, end)
}

} // verus!
