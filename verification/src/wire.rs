//! Forward read and write cursors over byte buffers: the one place that
//! knows how fixed-width integers, hashes and length-prefixed byte strings
//! are laid out.

use crate::error::Error;
use crate::hash::hash_from_slice;
use crate::util::checked_str;
use vstd::prelude::*;
use vstd::slice::slice_subrange;
use vstd::string::StringSliceAdditionalSpecFns;
use vstd::utf8::valid_utf8;

verus! {

/// The four little-endian bytes of a `u32`: the low byte first.
#[verifier::opaque]
pub open spec fn u32_le(x: u32) -> Seq<u8> {
    seq![
        (x & 0xff) as u8,
        ((x >> 8) & 0xff) as u8,
        ((x >> 16) & 0xff) as u8,
        ((x >> 24) & 0xff) as u8,
    ]
}

/// The `u32` that four little-endian bytes spell.
#[verifier::opaque]
pub open spec fn u32_from_le(s: Seq<u8>) -> u32 {
    (s[0] as u32) | (s[1] as u32) << 8 | (s[2] as u32) << 16 | (s[3] as u32) << 24
}

/// The eight little-endian bytes of a `u64`: the low byte first.
#[verifier::opaque]
pub open spec fn u64_le(x: u64) -> Seq<u8> {
    seq![
        (x & 0xff) as u8,
        ((x >> 8) & 0xff) as u8,
        ((x >> 16) & 0xff) as u8,
        ((x >> 24) & 0xff) as u8,
        ((x >> 32) & 0xff) as u8,
        ((x >> 40) & 0xff) as u8,
        ((x >> 48) & 0xff) as u8,
        ((x >> 56) & 0xff) as u8,
    ]
}

/// The `u64` that eight little-endian bytes spell.
#[verifier::opaque]
pub open spec fn u64_from_le(s: Seq<u8>) -> u64 {
    (s[0] as u64) | (s[1] as u64) << 8 | (s[2] as u64) << 16 | (s[3] as u64) << 24 | (s[4] as u64)
        << 32 | (s[5] as u64) << 40 | (s[6] as u64) << 48 | (s[7] as u64) << 56
}

/// The eight little-endian bytes of an `i64`, in two's complement.
pub open spec fn i64_le(x: i64) -> Seq<u8> {
    u64_le(x as u64)
}

/// The four little-endian bytes of `x`.
pub fn u32_to_le_bytes(x: u32) -> (b: Vec<u8>)
    ensures
        b@ == u32_le(x),
{
    proof {
        reveal(u32_le);
    }
    let mut b: Vec<u8> = Vec::with_capacity(4);
    b.push((x & 0xff) as u8);
    b.push(((x >> 8) & 0xff) as u8);
    b.push(((x >> 16) & 0xff) as u8);
    b.push(((x >> 24) & 0xff) as u8);
    assert(b@ =~= u32_le(x));
    b
}

/// The `u32` that the four bytes of `s` spell, the low byte first.
pub fn u32_from_le_bytes(s: &[u8]) -> (x: u32)
    requires
        s@.len() == 4,
    ensures
        x == u32_from_le(s@),
{
    proof {
        reveal(u32_from_le);
    }
    (s[0] as u32) | (s[1] as u32) << 8 | (s[2] as u32) << 16 | (s[3] as u32) << 24
}

/// The eight little-endian bytes of `x`.
pub fn u64_to_le_bytes(x: u64) -> (b: Vec<u8>)
    ensures
        b@ == u64_le(x),
{
    proof {
        reveal(u64_le);
    }
    let mut b: Vec<u8> = Vec::with_capacity(8);
    b.push((x & 0xff) as u8);
    b.push(((x >> 8) & 0xff) as u8);
    b.push(((x >> 16) & 0xff) as u8);
    b.push(((x >> 24) & 0xff) as u8);
    b.push(((x >> 32) & 0xff) as u8);
    b.push(((x >> 40) & 0xff) as u8);
    b.push(((x >> 48) & 0xff) as u8);
    b.push(((x >> 56) & 0xff) as u8);
    assert(b@ =~= u64_le(x));
    b
}

/// The `u64` that the eight bytes of `s` spell, the low byte first.
pub fn u64_from_le_bytes(s: &[u8]) -> (x: u64)
    requires
        s@.len() == 8,
    ensures
        x == u64_from_le(s@),
{
    proof {
        reveal(u64_from_le);
    }
    (s[0] as u64) | (s[1] as u64) << 8 | (s[2] as u64) << 16 | (s[3] as u64) << 24 | (s[4] as u64)
        << 32 | (s[5] as u64) << 40 | (s[6] as u64) << 48 | (s[7] as u64) << 56
}

/// Four bytes spell the `u32` whose bytes they are.
pub proof fn lemma_u32_bytes(a: u8, b: u8, c: u8, d: u8)
    ensures
        u32_le(u32_from_le(seq![a, b, c, d])) == seq![a, b, c, d],
{
    reveal(u32_le);
    reveal(u32_from_le);
    reveal(u64_le);
    reveal(u64_from_le);
    let v = (a as u32) | (b as u32) << 8 | (c as u32) << 16 | (d as u32) << 24;
    assert((v & 0xff) as u8 == a && ((v >> 8) & 0xff) as u8 == b && ((v >> 16) & 0xff) as u8 == c
        && ((v >> 24) & 0xff) as u8 == d) by (bit_vector)
        requires
            v == (a as u32) | (b as u32) << 8 | (c as u32) << 16 | (d as u32) << 24,
    ;
    assert(u32_le(v) =~= seq![a, b, c, d]);
}

/// Eight bytes spell the `u64` whose bytes they are.
pub proof fn lemma_u64_bytes(s: Seq<u8>)
    requires
        s.len() == 8,
    ensures
        u64_le(u64_from_le(s)) == s,
{
    reveal(u32_le);
    reveal(u32_from_le);
    reveal(u64_le);
    reveal(u64_from_le);
    let a = s[0];
    let b = s[1];
    let c = s[2];
    let d = s[3];
    let e = s[4];
    let f = s[5];
    let g = s[6];
    let h = s[7];
    let v = u64_from_le(s);
    assert((v & 0xff) as u8 == a && ((v >> 8) & 0xff) as u8 == b && ((v >> 16) & 0xff) as u8 == c
        && ((v >> 24) & 0xff) as u8 == d && ((v >> 32) & 0xff) as u8 == e && ((v >> 40) & 0xff) as u8
        == f && ((v >> 48) & 0xff) as u8 == g && ((v >> 56) & 0xff) as u8 == h) by (bit_vector)
        requires
            v == (a as u64) | (b as u64) << 8 | (c as u64) << 16 | (d as u64) << 24 | (e as u64)
                << 32 | (f as u64) << 40 | (g as u64) << 48 | (h as u64) << 56,
    ;
    assert(u64_le(v) =~= s);
}

/// A byte string behind its length as a `u32`.
pub open spec fn len_prefixed(s: Seq<u8>) -> Seq<u8> {
    u32_le(s.len() as u32) + s
}

/// The integer encodings have a fixed width and can be read back.
pub proof fn lemma_int_le()
    ensures
        forall|x: u32|
            #![trigger u32_le(x)]
            u32_le(x).len() == 4 && u32_from_le(u32_le(x)) == x,
        forall|s: Seq<u8>| s.len() == 4 ==> u32_le(#[trigger] u32_from_le(s)) == s,
        forall|x: u64|
            #![trigger u64_le(x)]
            u64_le(x).len() == 8 && u64_from_le(u64_le(x)) == x,
        forall|s: Seq<u8>| s.len() == 8 ==> u64_le(#[trigger] u64_from_le(s)) == s,
        forall|x: i64|
            #![trigger i64_le(x)]
            i64_le(x).len() == 8 && u64_from_le(i64_le(x)) as i64 == x,
        forall|s: Seq<u8>|
            s.len() == 8 ==> i64_le(#[trigger] u64_from_le(s) as i64) == s,
{
    reveal(u32_le);
    reveal(u32_from_le);
    reveal(u64_le);
    reveal(u64_from_le);
    assert forall|x: u32|
        #![trigger u32_le(x)]
        u32_le(x).len() == 4 && u32_from_le(u32_le(x)) == x by {
        assert(((x & 0xff) as u8) as u32 | (((x >> 8) & 0xff) as u8 as u32) << 8 | (((x >> 16)
            & 0xff) as u8 as u32) << 16 | (((x >> 24) & 0xff) as u8 as u32) << 24 == x)
            by (bit_vector);
    }
    assert forall|s: Seq<u8>| s.len() == 4 implies u32_le(#[trigger] u32_from_le(s)) == s by {
        lemma_u32_bytes(s[0], s[1], s[2], s[3]);
        assert(s =~= seq![s[0], s[1], s[2], s[3]]);
    }
    assert forall|x: u64|
        #![trigger u64_le(x)]
        u64_le(x).len() == 8 && u64_from_le(u64_le(x)) == x by {
        assert(((x & 0xff) as u8) as u64 | (((x >> 8) & 0xff) as u8 as u64) << 8 | (((x >> 16)
            & 0xff) as u8 as u64) << 16 | (((x >> 24) & 0xff) as u8 as u64) << 24 | (((x >> 32)
            & 0xff) as u8 as u64) << 32 | (((x >> 40) & 0xff) as u8 as u64) << 40 | (((x >> 48)
            & 0xff) as u8 as u64) << 48 | (((x >> 56) & 0xff) as u8 as u64) << 56 == x)
            by (bit_vector);
    }
    assert forall|s: Seq<u8>| s.len() == 8 implies u64_le(#[trigger] u64_from_le(s)) == s by {
        lemma_u64_bytes(s);
    }
    assert forall|x: i64|
        #![trigger i64_le(x)]
        i64_le(x).len() == 8 && u64_from_le(i64_le(x)) as i64 == x by {
        assert(u64_from_le(u64_le(x as u64)) == x as u64);
        assert((x as u64) as i64 == x) by (bit_vector);
    }
    assert forall|s: Seq<u8>| s.len() == 8 implies i64_le(#[trigger] u64_from_le(s) as i64) == s by {
        let u = u64_from_le(s);
        assert((u as i64) as u64 == u) by (bit_vector);
        lemma_u64_bytes(s);
    }
}

/// Two encodings of a `u32` followed by anything agree only for one value.
pub proof fn lemma_u32_le_injective(x: u32, y: u32, a: Seq<u8>, b: Seq<u8>)
    requires
        u32_le(x) + a == u32_le(y) + b,
    ensures
        x == y,
        a == b,
{
    lemma_int_le();
    lemma_split_at(u32_le(x), a, u32_le(y), b);
}

/// Concatenations with equally long heads have equal heads and equal tails.
pub proof fn lemma_split_at(h1: Seq<u8>, t1: Seq<u8>, h2: Seq<u8>, t2: Seq<u8>)
    requires
        h1 + t1 == h2 + t2,
        h1.len() == h2.len(),
    ensures
        h1 == h2,
        t1 == t2,
{
    let n = h1.len() as int;
    assert((h1 + t1).subrange(0, n) =~= h1);
    assert((h2 + t2).subrange(0, n) =~= h2);
    assert((h1 + t1).skip(n) =~= t1);
    assert((h2 + t2).skip(n) =~= t2);
}

/// What a type is written as on the wire.
pub trait Encode {
    /// The bytes the value is written as.
    spec fn wire(&self) -> Seq<u8>;

    /// Whether every count and length in the value fits its field.
    spec fn fits(&self) -> bool;

    /// Appends the value's bytes to the cursor's buffer.
    fn encode(&self, w: &mut WriteCursor<'_>)
        requires
            self.fits(),
        ensures
            final(w).written() == old(w).written() + self.wire(),
            *final(final(w).buf) == *final(old(w).buf),
    ;
}

/// How a type is read back from the wire.
pub trait Decode: Sized {
    /// The bytes the value is written as.
    spec fn wire(&self) -> Seq<u8>;

    /// Whether every count and length in the value fits its field.
    spec fn fits(&self) -> bool;

    /// Reads one value off the front of the cursor. It succeeds exactly when
    /// the unread bytes start with the encoding of some value, and returns
    /// that value.
    fn decode(r: &mut ReadCursor<'_>) -> (res: Result<Self, Error>)
        ensures
            match res {
                Ok(v) => v.fits() && old(r).rest() == v.wire() + final(r).rest(),
                Err(e) => e == Error::CorruptObjectDatabase && forall|v: Self, tail: Seq<u8>|
                    v.fits() ==> old(r).rest() != #[trigger] (v.wire() + tail),
            },
    ;
}

/// Reads from a byte slice, front to back.
pub struct ReadCursor<'a> {
    data: &'a [u8],
    pos: usize,
}

impl<'a> Clone for ReadCursor<'a> {
    fn clone(&self) -> (c: Self)
        ensures
            c == *self,
    {
        proof {
            use_type_invariant(self);
        }
        Self { data: self.data, pos: self.pos }
    }
}

impl<'a> ReadCursor<'a> {
    #[verifier::type_invariant]
    spec fn in_bounds(self) -> bool {
        self.pos <= self.data@.len()
    }

    /// The bytes not read yet.
    pub closed spec fn rest(&self) -> Seq<u8> {
        self.data@.skip(self.pos as int)
    }

    /// A cursor at the start of `data`.
    pub fn new(data: &'a [u8]) -> (c: Self)
        ensures
            c.rest() == data@,
    {
        assert(data@.skip(0) =~= data@);
        Self { data, pos: 0 }
    }

    /// The unread bytes.
    pub fn remaining(&self) -> (r: &'a [u8])
        ensures
            r@ == self.rest(),
    {
        proof {
            use_type_invariant(self);
        }
        let r = slice_subrange(self.data, self.pos, self.data.len());
        assert(r@ =~= self.rest());
        r
    }

    /// Whether every byte has been read.
    pub fn at_end(&self) -> (r: bool)
        ensures
            r == (self.rest().len() == 0),
    {
        proof {
            use_type_invariant(self);
        }
        self.pos >= self.data.len()
    }

    /// Whether `n` more bytes can be read.
    fn ensure(&self, n: usize) -> (r: Result<(), Error>)
        ensures
            r is Ok <==> self.rest().len() >= n,
            r is Err ==> r->Err_0 == Error::CorruptObjectDatabase,
            self.pos + self.rest().len() == self.data@.len(),
    {
        proof {
            use_type_invariant(self);
        }
        if self.data.len() - self.pos < n {
            return Err(Error::CorruptObjectDatabase);
        }
        Ok(())
    }

    /// Takes the next `n` bytes, which are known to be there.
    fn take(&mut self, n: usize) -> (s: &'a [u8])
        requires
            old(self).rest().len() >= n,
        ensures
            s@.len() == n,
            old(self).rest() == s@ + final(self).rest(),
    {
        proof {
            use_type_invariant(&*self);
            assert(self.rest().len() == self.data@.len() - self.pos);
        }
        let len = self.data.len();
        let s = slice_subrange(self.data, self.pos, self.pos + n);
        self.pos = self.pos + n;
        assert(old(self).rest() =~= s@ + self.rest());
        s
    }

    /// Reads a little-endian `u32`, or fails if fewer than 4 bytes are left.
    pub fn read_u32(&mut self) -> (r: Result<u32, Error>)
        ensures
            match r {
                Ok(v) => old(self).rest() == u32_le(v) + final(self).rest(),
                Err(e) => e == Error::CorruptObjectDatabase && old(self).rest().len() < 4
                    && final(self).rest() == old(self).rest(),
            },
    {
        if self.ensure(4).is_err() {
            return Err(Error::CorruptObjectDatabase);
        }
        let s = self.take(4);
        proof {
            lemma_int_le();
        }
        Ok(u32_from_le_bytes(s))
    }

    /// Reads a little-endian `u64`, or fails if fewer than 8 bytes are left.
    pub fn read_u64(&mut self) -> (r: Result<u64, Error>)
        ensures
            match r {
                Ok(v) => old(self).rest() == u64_le(v) + final(self).rest(),
                Err(e) => e == Error::CorruptObjectDatabase && old(self).rest().len() < 8
                    && final(self).rest() == old(self).rest(),
            },
    {
        if self.ensure(8).is_err() {
            return Err(Error::CorruptObjectDatabase);
        }
        let s = self.take(8);
        proof {
            lemma_int_le();
        }
        Ok(u64_from_le_bytes(s))
    }

    /// Reads a little-endian `i64`, or fails if fewer than 8 bytes are left.
    pub fn read_i64(&mut self) -> (r: Result<i64, Error>)
        ensures
            match r {
                Ok(v) => old(self).rest() == i64_le(v) + final(self).rest(),
                Err(e) => e == Error::CorruptObjectDatabase && old(self).rest().len() < 8
                    && final(self).rest() == old(self).rest(),
            },
    {
        if self.ensure(8).is_err() {
            return Err(Error::CorruptObjectDatabase);
        }
        let s = self.take(8);
        proof {
            lemma_int_le();
        }
        let u = u64_from_le_bytes(s);
        Ok(u as i64)
    }

    /// Reads a 32-byte hash, or fails if fewer than 32 bytes are left.
    pub fn read_hash(&mut self) -> (r: Result<crate::hash::Hash, Error>)
        ensures
            match r {
                Ok(h) => old(self).rest() == h@ + final(self).rest(),
                Err(e) => e == Error::CorruptObjectDatabase && old(self).rest().len() < 32
                    && final(self).rest() == old(self).rest(),
            },
    {
        if self.ensure(32).is_err() {
            return Err(Error::CorruptObjectDatabase);
        }
        let s = self.take(32);
        Ok(hash_from_slice(s))
    }

    /// Reads the next `n` bytes, or fails if fewer are left.
    pub fn read_bytes(&mut self, n: usize) -> (r: Result<&'a [u8], Error>)
        ensures
            match r {
                Ok(s) => s@.len() == n && old(self).rest() == s@ + final(self).rest(),
                Err(e) => e == Error::CorruptObjectDatabase && old(self).rest().len() < n
                    && final(self).rest() == old(self).rest(),
            },
    {
        if self.ensure(n).is_err() {
            return Err(Error::CorruptObjectDatabase);
        }
        Ok(self.take(n))
    }

    /// Reads a `u32` length and then that many bytes. It fails exactly when
    /// the unread bytes do not start with a length-prefixed byte string.
    pub fn read_len_prefixed_bytes(&mut self) -> (r: Result<&'a [u8], Error>)
        ensures
            match r {
                Ok(s) => s@.len() <= u32::MAX
                    && old(self).rest() == len_prefixed(s@) + final(self).rest(),
                Err(e) => e == Error::CorruptObjectDatabase && forall|s: Seq<u8>, tail: Seq<u8>|
                    s.len() <= u32::MAX ==> old(self).rest() != #[trigger] (len_prefixed(s) + tail),
            },
    {
        let ghost before = self.rest();
        let n = match self.read_u32() {
            Ok(n) => n,
            Err(e) => {
                proof {
                    lemma_int_le();
                    assert forall|s: Seq<u8>, tail: Seq<u8>| s.len() <= u32::MAX implies before
                        != #[trigger] (len_prefixed(s) + tail) by {
                        assert((len_prefixed(s) + tail).len() >= 4);
                    }
                }
                return Err(e);
            },
        };
        let ghost mid = self.rest();
        match self.read_bytes(n as usize) {
            Ok(s) => {
                assert(before =~= len_prefixed(s@) + self.rest());
                Ok(s)
            },
            Err(e) => {
                proof {
                    assert forall|s: Seq<u8>, tail: Seq<u8>| s.len() <= u32::MAX implies before
                        != #[trigger] (len_prefixed(s) + tail) by {
                        if before == len_prefixed(s) + tail {
                            assert(len_prefixed(s) + tail =~= u32_le(s.len() as u32) + (s + tail));
                            lemma_u32_le_injective(n, s.len() as u32, mid, s + tail);
                        }
                    }
                }
                Err(e)
            },
        }
    }

    /// Reads a `u32` length and then that many bytes as a UTF-8 string. It
    /// fails exactly when the unread bytes do not start with a
    /// length-prefixed, well-formed UTF-8 string.
    pub fn read_len_prefixed_str(&mut self) -> (r: Result<&'a str, Error>)
        ensures
            match r {
                Ok(s) => s.spec_bytes().len() <= u32::MAX
                    && old(self).rest() == len_prefixed(s.spec_bytes()) + final(self).rest(),
                Err(e) => e == Error::CorruptObjectDatabase && forall|s: Seq<u8>, tail: Seq<u8>|
                    s.len() <= u32::MAX && valid_utf8(s) ==> old(self).rest() != #[trigger] (len_prefixed(s) + tail),
            },
    {
        let ghost before = self.rest();
        let bytes = self.read_len_prefixed_bytes()?;
        match checked_str(bytes) {
            Some(s) => Ok(s),
            None => {
                proof {
                    assert forall|s: Seq<u8>, tail: Seq<u8>|
                        s.len() <= u32::MAX && valid_utf8(s) implies before != #[trigger] (len_prefixed(s) + tail) by {
                        if before == len_prefixed(s) + tail {
                            lemma_len_prefixed_injective(bytes@, self.rest(), s, tail);
                        }
                    }
                }
                Err(Error::CorruptObjectDatabase)
            },
        }
    }
}

/// A length-prefixed byte string at the front of a buffer is determined by
/// the buffer.
pub proof fn lemma_len_prefixed_injective(s1: Seq<u8>, t1: Seq<u8>, s2: Seq<u8>, t2: Seq<u8>)
    requires
        s1.len() <= u32::MAX,
        s2.len() <= u32::MAX,
        len_prefixed(s1) + t1 == len_prefixed(s2) + t2,
    ensures
        s1 == s2,
        t1 == t2,
{
    assert(len_prefixed(s1) + t1 =~= u32_le(s1.len() as u32) + (s1 + t1));
    assert(len_prefixed(s2) + t2 =~= u32_le(s2.len() as u32) + (s2 + t2));
    lemma_u32_le_injective(s1.len() as u32, s2.len() as u32, s1 + t1, s2 + t2);
    lemma_split_at(s1, t1, s2, t2);
}

/// Appends to a byte vector.
pub struct WriteCursor<'a> {
    /// The vector that is appended to.
    pub buf: &'a mut Vec<u8>,
}

impl<'a> WriteCursor<'a> {
    /// The bytes in the buffer so far.
    pub open spec fn written(&self) -> Seq<u8> {
        self.buf@
    }

    /// A cursor that appends to `buf`.
    pub fn new(buf: &'a mut Vec<u8>) -> (w: Self)
        ensures
            w.written() == old(buf)@,
            *final(w.buf) == *final(buf),
    {
        Self { buf }
    }

    /// Appends a `u32`, little-endian.
    pub fn write_u32(&mut self, v: u32)
        ensures
            final(self).written() == old(self).written() + u32_le(v),
            *final(final(self).buf) == *final(old(self).buf),
    {
        let b = u32_to_le_bytes(v);
        self.write_slice(b.as_slice());
    }

    /// Appends a `u64`, little-endian.
    pub fn write_u64(&mut self, v: u64)
        ensures
            final(self).written() == old(self).written() + u64_le(v),
            *final(final(self).buf) == *final(old(self).buf),
    {
        let b = u64_to_le_bytes(v);
        self.write_slice(b.as_slice());
    }

    /// Appends an `i64`, little-endian two's complement.
    pub fn write_i64(&mut self, v: i64)
        ensures
            final(self).written() == old(self).written() + i64_le(v),
            *final(final(self).buf) == *final(old(self).buf),
    {
        let b = u64_to_le_bytes(v as u64);
        self.write_slice(b.as_slice());
    }

    /// Appends the 32 bytes of a hash.
    pub fn write_hash(&mut self, h: &crate::hash::Hash)
        ensures
            final(self).written() == old(self).written() + h@,
            *final(final(self).buf) == *final(old(self).buf),
    {
        self.write_slice(h.as_slice());
    }

    /// Appends the bytes of `s`.
    pub fn write_slice(&mut self, s: &[u8])
        ensures
            final(self).written() == old(self).written() + s@,
            *final(final(self).buf) == *final(old(self).buf),
    {
        self.buf.extend_from_slice(s);
        assert(self.buf@ =~= old(self).buf@ + s@);
    }

    /// Appends the length of `s` as a `u32`, then its bytes.
    pub fn write_len_prefixed_bytes(&mut self, s: &[u8])
        requires
            s@.len() <= u32::MAX,
        ensures
            final(self).written() == old(self).written() + len_prefixed(s@),
            *final(final(self).buf) == *final(old(self).buf),
    {
        self.write_u32(s.len() as u32);
        self.write_slice(s);
        assert(self.written() =~= old(self).written() + len_prefixed(s@));
    }

    /// Appends the byte length of `s` as a `u32`, then its UTF-8 bytes.
    pub fn write_len_prefixed_str(&mut self, s: &str)
        requires
            s.spec_bytes().len() <= u32::MAX,
        ensures
            final(self).written() == old(self).written() + len_prefixed(s.spec_bytes()),
            *final(final(self).buf) == *final(old(self).buf),
    {
        self.write_len_prefixed_bytes(s.as_bytes());
    }
}

} // verus!
