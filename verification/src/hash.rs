//! The 32-byte content identifier, its hex form and the digest behind it.

use crate::error::Error;
use vstd::prelude::*;
use vstd::string::StringSliceAdditionalSpecFns;
use vstd::utf8::encode_utf8;

verus! {

/// A 256-bit content identifier. Equality and order are byte-wise.
pub type Hash = [u8; 32];

/// The BLAKE3 digest (32 bytes of output, default mode) of a byte string.
pub uninterp spec fn blake3_digest(data: Seq<u8>) -> crate::hash::Hash;

/// The lowercase hex digit of a value below 16.
pub open spec fn hex_digit(n: int) -> u8 {
    if n < 10 {
        (48 + n) as u8
    } else {
        (87 + n) as u8
    }
}

/// The lowercase hex form of a byte string, as ASCII bytes: two digits per
/// byte, high nibble first.
pub open spec fn hex_of(bytes: Seq<u8>) -> Seq<u8> {
    Seq::new(
        2 * bytes.len(),
        |i: int|
            if i % 2 == 0 {
                hex_digit(bytes[i / 2] as int / 16)
            } else {
                hex_digit(bytes[i / 2] as int % 16)
            },
    )
}

/// The value of a hex digit in either case, or `None` for any other byte.
pub open spec fn hex_val(c: u8) -> Option<int> {
    if 48 <= c <= 57 {
        Some(c - 48)
    } else if 97 <= c <= 102 {
        Some(c - 97 + 10)
    } else if 65 <= c <= 70 {
        Some(c - 65 + 10)
    } else {
        None
    }
}

/// Whether a byte string is an even number of hex digits.
pub open spec fn is_hex(s: Seq<u8>) -> bool {
    s.len() % 2 == 0 && forall|i: int| 0 <= i < s.len() ==> hex_val(#[trigger] s[i]) is Some
}

/// The bytes that a string of hex digits spells.
pub open spec fn unhex(s: Seq<u8>) -> Seq<u8> {
    Seq::new(
        s.len() / 2,
        |i: int| (hex_val(s[2 * i])->0 * 16 + hex_val(s[2 * i + 1])->0) as u8,
    )
}

/// Whether a string is the hex form of some hash: 64 hex digits.
pub open spec fn is_hash_hex(s: Seq<u8>) -> bool {
    s.len() == 64 && is_hex(s)
}

#[verifier::external_type_specification]
#[verifier::external_body]
pub struct ExFromHexError(hex::FromHexError);

/// `blake3::hash`, as an array: the digest of `data`.
#[verifier::external_body]
pub fn hash_bytes(data: &[u8]) -> (h: Hash)
    ensures
        h == blake3_digest(data@),
{
    blake3::hash(data).into()
}

/// `hex::encode` on a hash: its 64 lowercase hex digits.
#[verifier::external_body]
pub fn hash_to_hex(hash: &Hash) -> (s: String)
    ensures
        encode_utf8(s@) == hex_of(hash@),
{
    hex::encode(hash)
}

/// `hex::decode`: succeeds exactly on an even number of hex digits of either
/// case, and gives the bytes they spell.
#[verifier::external_body]
fn hex_decode(s: &str) -> (r: Result<Vec<u8>, hex::FromHexError>)
    ensures
        r is Ok <==> is_hex(s.spec_bytes()),
        r is Ok ==> r->Ok_0@ == unhex(s.spec_bytes()),
{
    hex::decode(s)
}

/// Whether two hashes are the same bytes.
pub fn hash_eq(a: &Hash, b: &Hash) -> (r: bool)
    ensures
        r == (a@ == b@),
        r == (*a == *b),
{
    let mut i: usize = 0;
    while i < 32
        invariant
            i <= 32,
            forall|j: int| 0 <= j < i ==> a@[j] == b@[j],
        decreases 32 - i,
    {
        if a[i] != b[i] {
            return false;
        }
        i += 1;
    }
    assert(a@ =~= b@);
    assert(*a =~= *b);
    true
}

/// The hash whose bytes are `bytes`.
pub fn hash_from_slice(bytes: &[u8]) -> (h: Hash)
    requires
        bytes@.len() == 32,
    ensures
        h@ == bytes@,
{
    let mut h: Hash = [0u8; 32];
    let mut i: usize = 0;
    while i < 32
        invariant
            i <= 32,
            bytes@.len() == 32,
            forall|j: int| 0 <= j < i ==> h@[j] == bytes@[j],
        decreases 32 - i,
    {
        h[i] = bytes[i];
        i += 1;
    }
    assert(h@ =~= bytes@);
    h
}

/// Parses the hex form of a hash. Anything but 64 hex digits is
/// `InvalidInput`.
pub fn hex_to_hash(s: &str) -> (r: Result<Hash, Error>)
    ensures
        r is Ok <==> is_hash_hex(s.spec_bytes()),
        r is Ok ==> r->Ok_0@ == unhex(s.spec_bytes()),
        r is Err ==> r->Err_0 == Error::InvalidInput,
{
    match hex_decode(s) {
        Ok(bytes) => {
            if bytes.len() != 32 {
                return Err(Error::InvalidInput);
            }
            Ok(hash_from_slice(bytes.as_slice()))
        },
        Err(_) => Err(Error::InvalidInput),
    }
}

/// Hex digits spell back the bytes they were made from.
pub proof fn lemma_unhex_hex_of(bytes: Seq<u8>)
    ensures
        is_hex(hex_of(bytes)),
        unhex(hex_of(bytes)) == bytes,
{
    let h = hex_of(bytes);
    assert forall|i: int| 0 <= i < h.len() implies hex_val(#[trigger] h[i]) is Some by {
        let b = bytes[i / 2] as int;
        assert(0 <= b / 16 < 16);
        assert(0 <= b % 16 < 16);
    }
    assert forall|i: int| 0 <= i < bytes.len() implies unhex(h)[i] == bytes[i] by {
        let b = bytes[i] as int;
        assert((2 * i) / 2 == i);
        assert((2 * i + 1) / 2 == i);
        assert((2 * i) % 2 == 0);
        assert((2 * i + 1) % 2 == 1);
        assert(0 <= b / 16 < 16);
        assert(0 <= b % 16 < 16);
        assert(hex_val(hex_digit(b / 16))->0 == b / 16);
        assert(hex_val(hex_digit(b % 16))->0 == b % 16);
        assert((b / 16) * 16 + b % 16 == b);
    }
    assert(unhex(h) =~= bytes);
}

} // verus!
