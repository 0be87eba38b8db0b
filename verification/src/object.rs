//! The object model: a blob, a tree or a commit, by the id under which a
//! store holds it, and the record in which the object database keeps it.

use crate::commit::{commit_ok, commit_payload, lemma_commit_payload_injective, CommitView};
use crate::error::Error;
use crate::hash::hash_bytes;
use crate::store::{BlobId, CommitId, TreeId};
use crate::tree::{lemma_tree_payload_injective, tree_ok, tree_payload, Tree, TreeEntry, TreeEntryView, entry_views};
use crate::wire::{lemma_int_le, lemma_split_at, u64_le, ReadCursor, WriteCursor};
use vstd::prelude::*;
use vstd::slice::slice_subrange;

verus! {

/// The mode of a regular file.
pub const MODE_FILE: u32 = 0o100644;

/// The mode of an executable file.
pub const MODE_EXEC: u32 = 0o100755;

/// The mode of a directory.
pub const MODE_DIR: u32 = 0o040000;

/// The mode reserved for symbolic links.
pub const MODE_LINK: u32 = 0o120000;

/// The tag byte of a blob record.
pub const OBJECT_BLOB: u8 = 0x1;

/// The tag byte of a tree record.
pub const OBJECT_TREE: u8 = 0x2;

/// The tag byte of a commit record.
pub const OBJECT_COMMIT: u8 = 0x4;

/// The kind of an object, as its record says it.
#[derive(Debug, Clone, Copy, PartialEq, Eq, Structural)]
pub enum ObjectTag {
    Blob,
    Tree,
    Commit,
}

impl ObjectTag {
    /// The tag byte of the kind.
    pub open spec fn byte(self) -> u8 {
        match self {
            ObjectTag::Blob => OBJECT_BLOB,
            ObjectTag::Tree => OBJECT_TREE,
            ObjectTag::Commit => OBJECT_COMMIT,
        }
    }

    /// The tag byte of the kind.
    pub fn as_byte(self) -> (b: u8)
        ensures
            b == self.byte(),
    {
        match self {
            ObjectTag::Blob => OBJECT_BLOB,
            ObjectTag::Tree => OBJECT_TREE,
            ObjectTag::Commit => OBJECT_COMMIT,
        }
    }

    /// The kind that a tag byte names, if it names one.
    pub fn from_byte(b: u8) -> (t: Option<ObjectTag>)
        ensures
            match t {
                Some(t) => t.byte() == b,
                None => forall|t: ObjectTag| t.byte() != b,
            },
    {
        if b == OBJECT_BLOB {
            Some(ObjectTag::Blob)
        } else if b == OBJECT_TREE {
            Some(ObjectTag::Tree)
        } else if b == OBJECT_COMMIT {
            Some(ObjectTag::Commit)
        } else {
            None
        }
    }
}

/// A handle on a decoded object: its kind and its id in the store of that
/// kind.
#[derive(Debug, Clone, Copy, PartialEq, Eq, Structural)]
pub enum Object {
    Blob(BlobId),
    Tree(TreeId),
    Commit(CommitId),
}

impl Object {
    /// The kind of the object.
    pub open spec fn tag(self) -> ObjectTag {
        match self {
            Object::Blob(_) => ObjectTag::Blob,
            Object::Tree(_) => ObjectTag::Tree,
            Object::Commit(_) => ObjectTag::Commit,
        }
    }

    /// The id of the commit, or `TypeMismatch` for another kind.
    pub fn try_as_commit_id(&self) -> (r: Result<CommitId, Error>)
        ensures
            match r {
                Ok(id) => *self == Object::Commit(id),
                Err(e) => e == Error::TypeMismatch && !(self is Commit),
            },
    {
        match self {
            Object::Commit(c) => Ok(*c),
            _ => Err(Error::TypeMismatch),
        }
    }

    /// The id of the tree, or `TypeMismatch` for another kind.
    pub fn try_as_tree_id(&self) -> (r: Result<TreeId, Error>)
        ensures
            match r {
                Ok(id) => *self == Object::Tree(id),
                Err(e) => e == Error::TypeMismatch && !(self is Tree),
            },
    {
        match self {
            Object::Tree(t) => Ok(*t),
            _ => Err(Error::TypeMismatch),
        }
    }

    /// The id of the blob, or `TypeMismatch` for another kind.
    pub fn try_as_blob_id(&self) -> (r: Result<BlobId, Error>)
        ensures
            match r {
                Ok(id) => *self == Object::Blob(id),
                Err(e) => e == Error::TypeMismatch && !(self is Blob),
            },
    {
        match self {
            Object::Blob(b) => Ok(*b),
            _ => Err(Error::TypeMismatch),
        }
    }
}

/// What an object is: the bytes of a blob, the entries of a tree or the
/// fields of a commit.
pub enum ObjectView {
    Blob(Seq<u8>),
    Tree(Seq<TreeEntryView>),
    Commit(CommitView),
}

/// The four bytes that every record starts with: `VX01`.
pub open spec fn magic() -> Seq<u8> {
    seq![0x56u8, 0x58u8, 0x30u8, 0x31u8]
}

/// A record: the magic, the tag byte and the payload.
pub open spec fn framed(tag: ObjectTag, payload: Seq<u8>) -> Seq<u8> {
    magic() + seq![tag.byte()] + payload
}

/// The payload of a blob: its length as a `u64`, then its bytes.
pub open spec fn blob_payload(data: Seq<u8>) -> Seq<u8> {
    u64_le(data.len() as u64) + data
}

/// The record of a blob.
pub open spec fn blob_record(data: Seq<u8>) -> Seq<u8> {
    framed(ObjectTag::Blob, blob_payload(data))
}

/// The record of a tree.
pub open spec fn tree_record(es: Seq<TreeEntryView>) -> Seq<u8> {
    framed(ObjectTag::Tree, tree_payload(es))
}

/// The record of a commit.
pub open spec fn commit_record(c: CommitView) -> Seq<u8> {
    framed(ObjectTag::Commit, commit_payload(c))
}

/// The canonical encoding of an object.
pub open spec fn record(o: ObjectView) -> Seq<u8> {
    match o {
        ObjectView::Blob(data) => blob_record(data),
        ObjectView::Tree(es) => tree_record(es),
        ObjectView::Commit(c) => commit_record(c),
    }
}

/// Whether an object can be encoded: every count and length fits its
/// field, and every string is well-formed UTF-8.
pub open spec fn object_ok(o: ObjectView) -> bool {
    match o {
        ObjectView::Blob(data) => data.len() <= u64::MAX,
        ObjectView::Tree(es) => tree_ok(es),
        ObjectView::Commit(c) => commit_ok(c),
    }
}

/// A record says which tag and payload it was made of.
pub proof fn lemma_framed_injective(t1: ObjectTag, p1: Seq<u8>, t2: ObjectTag, p2: Seq<u8>)
    requires
        framed(t1, p1) == framed(t2, p2),
    ensures
        t1 == t2,
        p1 == p2,
{
    lemma_split_at(magic() + seq![t1.byte()], p1, magic() + seq![t2.byte()], p2);
    assert((magic() + seq![t1.byte()])[4] == t1.byte());
    assert((magic() + seq![t2.byte()])[4] == t2.byte());
}

/// A blob is determined by its payload.
pub proof fn lemma_blob_payload_injective(a: Seq<u8>, b: Seq<u8>)
    requires
        a.len() <= u64::MAX,
        b.len() <= u64::MAX,
        blob_payload(a) == blob_payload(b),
    ensures
        a == b,
{
    lemma_int_le();
    lemma_split_at(u64_le(a.len() as u64), a, u64_le(b.len() as u64), b);
}

/// Round trip and content addressing rest on this: two encodable objects
/// with the same record are the same object. Decoding the record of an
/// object can therefore only give that object back.
pub proof fn lemma_record_injective(a: ObjectView, b: ObjectView)
    requires
        object_ok(a),
        object_ok(b),
        record(a) == record(b),
    ensures
        a == b,
{
    let ta = match a {
        ObjectView::Blob(_) => ObjectTag::Blob,
        ObjectView::Tree(_) => ObjectTag::Tree,
        ObjectView::Commit(_) => ObjectTag::Commit,
    };
    let tb = match b {
        ObjectView::Blob(_) => ObjectTag::Blob,
        ObjectView::Tree(_) => ObjectTag::Tree,
        ObjectView::Commit(_) => ObjectTag::Commit,
    };
    let pa = match a {
        ObjectView::Blob(d) => blob_payload(d),
        ObjectView::Tree(es) => tree_payload(es),
        ObjectView::Commit(c) => commit_payload(c),
    };
    let pb = match b {
        ObjectView::Blob(d) => blob_payload(d),
        ObjectView::Tree(es) => tree_payload(es),
        ObjectView::Commit(c) => commit_payload(c),
    };
    lemma_framed_injective(ta, pa, tb, pb);
    let e = Seq::<u8>::empty();
    match (a, b) {
        (ObjectView::Blob(x), ObjectView::Blob(y)) => {
            lemma_blob_payload_injective(x, y);
        },
        (ObjectView::Tree(x), ObjectView::Tree(y)) => {
            assert(tree_payload(x) + e =~= tree_payload(x));
            assert(tree_payload(y) + e =~= tree_payload(y));
            lemma_tree_payload_injective(x, e, y, e);
        },
        (ObjectView::Commit(x), ObjectView::Commit(y)) => {
            assert(commit_payload(x) + e =~= commit_payload(x));
            assert(commit_payload(y) + e =~= commit_payload(y));
            lemma_commit_payload_injective(x, e, y, e);
        },
        _ => {},
    }
}

/// Splits a record into its tag and its payload. It fails exactly when the
/// bytes do not start with the magic and a known tag.
pub fn read_header<'a>(data: &'a [u8]) -> (r: Result<(ObjectTag, &'a [u8]), Error>)
    ensures
        match r {
            Ok((tag, payload)) => data@ == framed(tag, payload@),
            Err(e) => e == Error::CorruptObjectDatabase && forall|tag: ObjectTag, p: Seq<u8>|
                data@ != #[trigger] framed(tag, p),
        },
{
    if data.len() < 5 {
        assert forall|tag: ObjectTag, p: Seq<u8>| data@ != #[trigger] framed(tag, p) by {
            assert(framed(tag, p).len() >= 5);
        }
        return Err(Error::CorruptObjectDatabase);
    }
    if data[0] != 0x56 || data[1] != 0x58 || data[2] != 0x30 || data[3] != 0x31 {
        assert forall|tag: ObjectTag, p: Seq<u8>| data@ != #[trigger] framed(tag, p) by {
            let f = framed(tag, p);
            assert(f[0] == 0x56 && f[1] == 0x58 && f[2] == 0x30 && f[3] == 0x31);
        }
        return Err(Error::CorruptObjectDatabase);
    }
    match ObjectTag::from_byte(data[4]) {
        Some(tag) => {
            let payload = slice_subrange(data, 5, data.len());
            assert(data@ =~= framed(tag, payload@));
            Ok((tag, payload))
        },
        None => {
            assert forall|tag: ObjectTag, p: Seq<u8>| data@ != #[trigger] framed(tag, p) by {
                assert(framed(tag, p)[4] == tag.byte());
            }
            Err(Error::CorruptObjectDatabase)
        },
    }
}

/// Writes the magic and the tag byte into an emptied buffer.
pub fn write_header(tag: ObjectTag, buf: &mut Vec<u8>)
    ensures
        final(buf)@ == framed(tag, Seq::<u8>::empty()),
{
    buf.clear();
    buf.push(0x56);
    buf.push(0x58);
    buf.push(0x30);
    buf.push(0x31);
    buf.push(tag.as_byte());
    assert(buf@ =~= framed(tag, Seq::<u8>::empty()));
}

/// Replaces the content of `buf` by the record of the blob `data`.
pub fn encode_blob_into(data: &[u8], buf: &mut Vec<u8>)
    ensures
        final(buf)@ == blob_record(data@),
{
    write_header(ObjectTag::Blob, buf);
    let mut w = WriteCursor::new(buf);
    w.write_u64(data.len() as u64);
    w.write_slice(data);
    assert(w.written() =~= blob_record(data@));
}

/// Replaces the content of `buf` by the record of the blob `data`, and
/// returns the hash of that record.
pub fn encode_blob_and_hash(data: &[u8], buf: &mut Vec<u8>) -> (h: crate::hash::Hash)
    ensures
        final(buf)@ == blob_record(data@),
        h == crate::hash::blake3_digest(blob_record(data@)),
{
    encode_blob_into(data, buf);
    hash_bytes(buf.as_slice())
}

/// Reads a blob payload: it succeeds exactly when `payload` is the payload
/// of a blob, and returns the blob's bytes.
pub fn decode_blob_payload<'a>(payload: &'a [u8]) -> (r: Result<&'a [u8], Error>)
    ensures
        match r {
            Ok(d) => payload@ == blob_payload(d@),
            Err(e) => e == Error::CorruptObjectDatabase && forall|d: Seq<u8>|
                d.len() <= u64::MAX ==> payload@ != #[trigger] blob_payload(d),
        },
{
    let mut r = ReadCursor::new(payload);
    let len = match r.read_u64() {
        Ok(len) => len,
        Err(e) => {
            proof {
                lemma_int_le();
                assert forall|d: Seq<u8>| d.len() <= u64::MAX implies payload@
                    != #[trigger] blob_payload(d) by {
                    assert(blob_payload(d).len() >= 8);
                }
            }
            return Err(e);
        },
    };
    let rest = r.remaining();
    if rest.len() as u64 != len {
        proof {
            lemma_int_le();
            assert forall|d: Seq<u8>| d.len() <= u64::MAX implies payload@ != #[trigger] blob_payload(
                d,
            ) by {
                if payload@ == blob_payload(d) {
                    lemma_split_at(u64_le(len), rest@, u64_le(d.len() as u64), d);
                }
            }
        }
        return Err(Error::CorruptObjectDatabase);
    }
    Ok(rest)
}

/// What decoding a record as one kind says of a record of another kind, or
/// of bytes that are no record: the error is `TypeMismatch` where the bytes
/// are framed as another kind, and `CorruptObjectDatabase` otherwise.
pub open spec fn wrong_kind(data: Seq<u8>, want: ObjectTag, e: Error) -> bool {
    if exists|tag: ObjectTag, p: Seq<u8>| tag != want && data == #[trigger] framed(tag, p) {
        e == Error::TypeMismatch
    } else {
        e == Error::CorruptObjectDatabase
    }
}

/// The bytes of the blob whose record `raw` is. It succeeds exactly when
/// `raw` is the record of a blob.
pub fn decode_blob_bytes<'a>(raw: &'a [u8]) -> (r: Result<&'a [u8], Error>)
    ensures
        match r {
            Ok(d) => raw@ == blob_record(d@),
            Err(e) => wrong_kind(raw@, ObjectTag::Blob, e) && forall|d: Seq<u8>|
                d.len() <= u64::MAX ==> raw@ != #[trigger] blob_record(d),
        },
{
    match read_header(raw) {
        Ok((tag, payload)) => {
            match tag {
                ObjectTag::Blob => {
                    match decode_blob_payload(payload) {
                        Ok(d) => Ok(d),
                        Err(e) => {
                            proof {
                                assert forall|d: Seq<u8>| d.len() <= u64::MAX implies raw@
                                    != #[trigger] blob_record(d) by {
                                    if raw@ == blob_record(d) {
                                        lemma_framed_injective(tag, payload@, ObjectTag::Blob, blob_payload(d));
                                    }
                                }
                                assert forall|t: ObjectTag, p: Seq<u8>|
                                    t != ObjectTag::Blob implies raw@ != #[trigger] framed(t, p) by {
                                    if raw@ == framed(t, p) {
                                        lemma_framed_injective(tag, payload@, t, p);
                                    }
                                }
                            }
                            Err(e)
                        },
                    }
                },
                _ => {
                    proof {
                        assert forall|d: Seq<u8>| d.len() <= u64::MAX implies raw@
                            != #[trigger] blob_record(d) by {
                            if raw@ == blob_record(d) {
                                lemma_framed_injective(tag, payload@, ObjectTag::Blob, blob_payload(d));
                            }
                        }
                        assert(tag != ObjectTag::Blob && raw@ == framed(tag, payload@));
                    }
                    Err(Error::TypeMismatch)
                },
            }
        },
        Err(e) => Err(e),
    }
}

/// The entries of the tree whose record `raw` is. It succeeds exactly when
/// `raw` is the record of an encodable tree.
pub fn decode_tree_entries(raw: &[u8]) -> (r: Result<Vec<TreeEntry>, Error>)
    ensures
        match r {
            Ok(es) => tree_ok(entry_views(es@)) && raw@ == tree_record(entry_views(es@)),
            Err(e) => wrong_kind(raw@, ObjectTag::Tree, e) && forall|es: Seq<TreeEntryView>|
                tree_ok(es) ==> raw@ != #[trigger] tree_record(es),
        },
{
    match read_header(raw) {
        Ok((tag, payload)) => {
            match tag {
                ObjectTag::Tree => {
                    match Tree::decode(payload) {
                        Ok(t) => {
                            proof {
                                t.lemma_columns();
                            }
                            Ok(t.to_entries())
                        },
                        Err(e) => {
                            proof {
                                assert forall|es: Seq<TreeEntryView>| tree_ok(es) implies raw@
                                    != #[trigger] tree_record(es) by {
                                    if raw@ == tree_record(es) {
                                        lemma_framed_injective(tag, payload@, ObjectTag::Tree, tree_payload(es));
                                    }
                                }
                                assert forall|t: ObjectTag, p: Seq<u8>|
                                    t != ObjectTag::Tree implies raw@ != #[trigger] framed(t, p) by {
                                    if raw@ == framed(t, p) {
                                        lemma_framed_injective(tag, payload@, t, p);
                                    }
                                }
                            }
                            Err(e)
                        },
                    }
                },
                _ => {
                    proof {
                        assert forall|es: Seq<TreeEntryView>| tree_ok(es) implies raw@
                            != #[trigger] tree_record(es) by {
                            if raw@ == tree_record(es) {
                                lemma_framed_injective(tag, payload@, ObjectTag::Tree, tree_payload(es));
                            }
                        }
                        assert(tag != ObjectTag::Tree && raw@ == framed(tag, payload@));
                    }
                    Err(Error::TypeMismatch)
                },
            }
        },
        Err(e) => Err(e),
    }
}

/// The commit whose record `raw` is. It succeeds exactly when `raw` is the
/// record of an encodable commit.
pub fn decode_commit_record(raw: &[u8]) -> (r: Result<crate::commit::CommitPayloadOwned, Error>)
    ensures
        match r {
            Ok(c) => commit_ok(c@) && raw@ == commit_record(c@),
            Err(e) => wrong_kind(raw@, ObjectTag::Commit, e) && forall|c: CommitView|
                commit_ok(c) ==> raw@ != #[trigger] commit_record(c),
        },
{
    match read_header(raw) {
        Ok((tag, payload)) => {
            match tag {
                ObjectTag::Commit => {
                    match crate::commit::decode_commit(payload) {
                        Ok(c) => Ok(c),
                        Err(e) => {
                            proof {
                                assert forall|c: CommitView| commit_ok(c) implies raw@
                                    != #[trigger] commit_record(c) by {
                                    if raw@ == commit_record(c) {
                                        lemma_framed_injective(tag, payload@, ObjectTag::Commit, commit_payload(c));
                                    }
                                }
                                assert forall|t: ObjectTag, p: Seq<u8>|
                                    t != ObjectTag::Commit implies raw@ != #[trigger] framed(t, p) by {
                                    if raw@ == framed(t, p) {
                                        lemma_framed_injective(tag, payload@, t, p);
                                    }
                                }
                            }
                            Err(e)
                        },
                    }
                },
                _ => {
                    proof {
                        assert forall|c: CommitView| commit_ok(c) implies raw@
                            != #[trigger] commit_record(c) by {
                            if raw@ == commit_record(c) {
                                lemma_framed_injective(tag, payload@, ObjectTag::Commit, commit_payload(c));
                            }
                        }
                        assert(tag != ObjectTag::Commit && raw@ == framed(tag, payload@));
                    }
                    Err(Error::TypeMismatch)
                },
            }
        },
        Err(e) => Err(e),
    }
}

/// A blob, decoded.
#[derive(Debug, Clone)]
pub struct Blob {
    pub data: Vec<u8>,
}

impl Blob {
    /// Decodes a blob payload: it succeeds exactly when `data` is the
    /// payload of a blob.
    pub fn decode(data: &[u8]) -> (r: Result<Blob, Error>)
        ensures
            match r {
                Ok(b) => data@ == blob_payload(b.data@),
                Err(e) => e == Error::CorruptObjectDatabase && forall|d: Seq<u8>|
                    d.len() <= u64::MAX ==> data@ != #[trigger] blob_payload(d),
            },
    {
        match decode_blob_payload(data) {
            Ok(d) => Ok(Blob { data: vstd::slice::slice_to_vec(d) }),
            Err(e) => Err(e),
        }
    }
}

} // verus!
