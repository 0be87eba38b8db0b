//! Trees: a directory snapshot as an ordered list of `(mode, hash, name)`
//! entries, its payload encoding, and the structure-of-arrays form in which
//! a decoded tree is held.

use crate::error::Error;
use crate::soa::{
    cat, check_packed, column, enc_hash, enc_u32, lemma_column_injective, lemma_column_len,
    lemma_encoders, lemma_pack_unpack, lemma_unpack_pack, packed_at, packed_get, packed_ok,
    packed_utf8, check_packed_utf8, read_hashes, read_u32s, starts, unpack, write_hashes,
    write_u32s,
};
use crate::util::{bytes_eq, str_from_utf8_data_shouldve_been_valid_or_we_got_hacked};
use crate::wire::{
    lemma_int_le, lemma_split_at, lemma_u32_le_injective, u32_le, Decode, Encode, ReadCursor,
    WriteCursor,
};
use vstd::prelude::*;
use vstd::slice::slice_to_vec;
use vstd::string::StringSliceAdditionalSpecFns;
use vstd::utf8::{encode_utf8, encode_utf8_valid_utf8, valid_utf8};

verus! {

/// One entry of a tree: a file, an executable or a directory, by name.
#[derive(Debug, Clone)]
pub struct TreeEntry {
    pub mode: u32,
    pub hash: crate::hash::Hash,
    pub name: String,
}

/// What a tree entry is, with its name as UTF-8 bytes.
pub struct TreeEntryView {
    pub mode: u32,
    pub hash: crate::hash::Hash,
    pub name: Seq<u8>,
}

impl View for TreeEntry {
    type V = TreeEntryView;

    open spec fn view(&self) -> TreeEntryView {
        TreeEntryView { mode: self.mode, hash: self.hash, name: encode_utf8(self.name@) }
    }
}

/// The views of a sequence of entries.
pub open spec fn entry_views(es: Seq<TreeEntry>) -> Seq<TreeEntryView> {
    Seq::new(es.len(), |i: int| es[i]@)
}

/// The modes of the entries, in order.
pub open spec fn tree_modes(es: Seq<TreeEntryView>) -> Seq<u32> {
    Seq::new(es.len(), |i: int| es[i].mode)
}

/// The hashes of the entries, in order.
pub open spec fn tree_hashes(es: Seq<TreeEntryView>) -> Seq<crate::hash::Hash> {
    Seq::new(es.len(), |i: int| es[i].hash)
}

/// The names of the entries, in order.
pub open spec fn tree_names(es: Seq<TreeEntryView>) -> Seq<Seq<u8>> {
    Seq::new(es.len(), |i: int| es[i].name)
}

/// Whether a tree can be encoded: its count and the total length of its
/// names fit a `u32`, and every name is well-formed UTF-8.
pub open spec fn tree_ok(es: Seq<TreeEntryView>) -> bool {
    &&& es.len() <= u32::MAX
    &&& cat(tree_names(es)).len() <= u32::MAX
    &&& forall|i: int| 0 <= i < es.len() ==> valid_utf8(#[trigger] es[i].name)
}

/// The payload of a tree: the count, the modes, the hashes, the start of
/// each name in the names blob, the blob's length and the blob.
pub open spec fn tree_payload(es: Seq<TreeEntryView>) -> Seq<u8> {
    u32_le(es.len() as u32) + column(tree_modes(es), enc_u32()) + column(
        tree_hashes(es),
        enc_hash(),
    ) + column(starts(tree_names(es)), enc_u32()) + u32_le(cat(tree_names(es)).len() as u32)
        + cat(tree_names(es))
}

/// Entry `j` is the first one of `es` called `name`.
pub open spec fn is_first_named(es: Seq<TreeEntryView>, name: Seq<u8>, j: int) -> bool {
    &&& 0 <= j < es.len()
    &&& es[j].name == name
    &&& forall|k: int| 0 <= k < j ==> (#[trigger] es[k]).name != name
}

/// What a lookup by name gives: the hash of the first entry of that name.
pub open spec fn found_in(es: Seq<TreeEntryView>, name: Seq<u8>, r: Option<crate::hash::Hash>) -> bool {
    match r {
        Some(h) => exists|j: int| is_first_named(es, name, j) && es[j].hash == h,
        None => forall|j: int| 0 <= j < es.len() ==> (#[trigger] es[j]).name != name,
    }
}

/// A payload read from the front of a buffer, field by field, agrees with
/// any tree whose payload the buffer starts with. The first `k` fields have
/// been read: the count `n`, the modes, the hashes, the offsets, the blob
/// length `l` and the blob, each followed by the bytes `r1` to `r6`.
pub proof fn lemma_tree_fields(
    es: Seq<TreeEntryView>,
    tail: Seq<u8>,
    rest0: Seq<u8>,
    k: int,
    n: u32,
    r1: Seq<u8>,
    modes: Seq<u32>,
    r2: Seq<u8>,
    hashes: Seq<crate::hash::Hash>,
    r3: Seq<u8>,
    offsets: Seq<u32>,
    r4: Seq<u8>,
    l: u32,
    r5: Seq<u8>,
    blob: Seq<u8>,
    r6: Seq<u8>,
)
    requires
        tree_ok(es),
        rest0 == tree_payload(es) + tail,
        k >= 1 ==> rest0 == u32_le(n) + r1,
        k >= 2 ==> modes.len() == n && r1 == column(modes, enc_u32()) + r2,
        k >= 3 ==> hashes.len() == n && r2 == column(hashes, enc_hash()) + r3,
        k >= 4 ==> offsets.len() == n && r3 == column(offsets, enc_u32()) + r4,
        k >= 5 ==> r4 == u32_le(l) + r5,
        k >= 6 ==> blob.len() == l && r5 == blob + r6,
    ensures
        rest0.len() >= 4,
        k >= 1 ==> n == es.len() && r1.len() >= 4 * n,
        k >= 2 ==> modes == tree_modes(es) && r2.len() >= 32 * n,
        k >= 3 ==> hashes == tree_hashes(es) && r3.len() >= 4 * n,
        k >= 4 ==> offsets == starts(tree_names(es)) && r4.len() >= 4,
        k >= 5 ==> l == cat(tree_names(es)).len() && r5.len() >= l,
        k >= 6 ==> blob == cat(tree_names(es)) && r6 == tail,
{
    lemma_int_le();
    lemma_encoders();
    let names = tree_names(es);
    let c = u32_le(es.len() as u32);
    let m = column(tree_modes(es), enc_u32());
    let h = column(tree_hashes(es), enc_hash());
    let o = column(starts(names), enc_u32());
    let ll = u32_le(cat(names).len() as u32);
    let b = cat(names);
    lemma_column_len(tree_modes(es), enc_u32(), 4);
    lemma_column_len(tree_hashes(es), enc_hash(), 32);
    lemma_column_len(starts(names), enc_u32(), 4);
    let q5 = b + tail;
    let q4 = ll + q5;
    let q3 = o + q4;
    let q2 = h + q3;
    let q1 = m + q2;
    assert(tree_payload(es) + tail =~= c + q1);
    if k >= 1 {
        lemma_u32_le_injective(n, es.len() as u32, r1, q1);
    }
    if k >= 2 {
        lemma_column_injective(modes, r2, tree_modes(es), q2, enc_u32(), 4);
    }
    if k >= 3 {
        lemma_column_injective(hashes, r3, tree_hashes(es), q3, enc_hash(), 32);
    }
    if k >= 4 {
        lemma_column_injective(offsets, r4, starts(names), q4, enc_u32(), 4);
    }
    if k >= 5 {
        lemma_u32_le_injective(l, cat(names).len() as u32, r5, q5);
    }
    if k >= 6 {
        lemma_split_at(blob, r6, b, tail);
    }
}

/// A buffer whose fields were read as in `lemma_tree_fields` up to field
/// `k`, where the next field cannot be read or the names are no packing of
/// well-formed strings, starts with the payload of no tree.
pub proof fn lemma_tree_unreadable(
    rest0: Seq<u8>,
    k: int,
    n: u32,
    r1: Seq<u8>,
    modes: Seq<u32>,
    r2: Seq<u8>,
    hashes: Seq<crate::hash::Hash>,
    r3: Seq<u8>,
    offsets: Seq<u32>,
    r4: Seq<u8>,
    l: u32,
    r5: Seq<u8>,
    blob: Seq<u8>,
    r6: Seq<u8>,
)
    requires
        0 <= k <= 6,
        k >= 1 ==> rest0 == u32_le(n) + r1,
        k >= 2 ==> modes.len() == n && r1 == column(modes, enc_u32()) + r2,
        k >= 3 ==> hashes.len() == n && r2 == column(hashes, enc_hash()) + r3,
        k >= 4 ==> offsets.len() == n && r3 == column(offsets, enc_u32()) + r4,
        k >= 5 ==> r4 == u32_le(l) + r5,
        k >= 6 ==> blob.len() == l && r5 == blob + r6,
        k == 0 ==> rest0.len() < 4,
        k == 1 ==> r1.len() < 4 * n,
        k == 2 ==> r2.len() < 32 * n,
        k == 3 ==> r3.len() < 4 * n,
        k == 4 ==> r4.len() < 4,
        k == 5 ==> r5.len() < l,
        k == 6 ==> !packed_ok(offsets, blob) || !packed_utf8(offsets, blob),
    ensures
        forall|es: Seq<TreeEntryView>, tail: Seq<u8>|
            tree_ok(es) ==> rest0 != #[trigger] (tree_payload(es) + tail),
{
    assert forall|es: Seq<TreeEntryView>, tail: Seq<u8>| tree_ok(es) implies rest0
        != #[trigger] (tree_payload(es) + tail) by {
        if rest0 == tree_payload(es) + tail {
            lemma_tree_fields(
                es,
                tail,
                rest0,
                k,
                n,
                r1,
                modes,
                r2,
                hashes,
                r3,
                offsets,
                r4,
                l,
                r5,
                blob,
                r6,
            );
            if k == 6 {
                lemma_pack_unpack(tree_names(es));
                assert forall|i: int| 0 <= i < offsets.len() implies valid_utf8(
                    #[trigger] packed_at(offsets, blob, i),
                ) by {
                    assert(unpack(offsets, blob)[i] == tree_names(es)[i]);
                    assert(valid_utf8(es[i].name));
                }
            }
        }
    }
}

/// A buffer whose fields were read one after the other, and make up a
/// well-formed tree, starts with the payload of that tree.
pub proof fn lemma_tree_readable(
    t: Tree,
    rest0: Seq<u8>,
    r1: Seq<u8>,
    r2: Seq<u8>,
    r3: Seq<u8>,
    r4: Seq<u8>,
    r5: Seq<u8>,
    r6: Seq<u8>,
)
    requires
        t.wf(),
        rest0 == u32_le(t.modes@.len() as u32) + r1,
        r1 == column(t.modes@, enc_u32()) + r2,
        r2 == column(t.hashes@, enc_hash()) + r3,
        r3 == column(t.name_offsets@, enc_u32()) + r4,
        r4 == u32_le(t.names_blob@.len() as u32) + r5,
        r5 == t.names_blob@ + r6,
    ensures
        rest0 == tree_payload(t@) + r6,
{
    t.lemma_columns();
    assert(rest0 =~= tree_payload(t@) + r6);
}

/// A tree is determined by its payload, whatever follows it.
pub proof fn lemma_tree_payload_injective(
    a: Seq<TreeEntryView>,
    ta: Seq<u8>,
    b: Seq<TreeEntryView>,
    tb: Seq<u8>,
)
    requires
        tree_ok(a),
        tree_ok(b),
        tree_payload(a) + ta == tree_payload(b) + tb,
    ensures
        a == b,
        ta == tb,
{
    let names = tree_names(b);
    let r6 = tb;
    let r5 = cat(names) + r6;
    let r4 = u32_le(cat(names).len() as u32) + r5;
    let r3 = column(starts(names), enc_u32()) + r4;
    let r2 = column(tree_hashes(b), enc_hash()) + r3;
    let r1 = column(tree_modes(b), enc_u32()) + r2;
    assert(tree_payload(b) + tb =~= u32_le(b.len() as u32) + r1);
    lemma_tree_fields(
        a,
        ta,
        tree_payload(a) + ta,
        6,
        b.len() as u32,
        r1,
        tree_modes(b),
        r2,
        tree_hashes(b),
        r3,
        starts(names),
        r4,
        cat(names).len() as u32,
        r5,
        cat(names),
        r6,
    );
    lemma_pack_unpack(tree_names(a));
    lemma_pack_unpack(tree_names(b));
    assert(tree_names(a) == tree_names(b));
    assert forall|i: int| 0 <= i < a.len() implies a[i] == b[i] by {
        assert(tree_modes(a)[i] == tree_modes(b)[i]);
        assert(tree_hashes(a)[i] == tree_hashes(b)[i]);
        assert(tree_names(a)[i] == tree_names(b)[i]);
    }
    assert(a =~= b);
}

/// The name of an entry is well-formed UTF-8.
pub proof fn lemma_entry_name_valid(e: TreeEntry)
    ensures
        valid_utf8(e@.name),
{
    encode_utf8_valid_utf8(e.name@);
}

/// An entry borrowed from a tree.
#[derive(Debug)]
pub struct TreeEntryRef<'a> {
    pub hash: crate::hash::Hash,
    pub name: &'a str,
    pub mode: u32,
}

impl<'a> View for TreeEntryRef<'a> {
    type V = TreeEntryView;

    open spec fn view(&self) -> TreeEntryView {
        TreeEntryView { mode: self.mode, hash: self.hash, name: self.name.spec_bytes() }
    }
}

impl TreeEntryRef<'_> {
    /// The entry with a name of its own.
    pub fn into_entry(self) -> (e: TreeEntry)
        ensures
            e@ == self@,
    {
        TreeEntry { name: self.name.to_owned(), hash: self.hash, mode: self.mode }
    }
}

/// A decoded tree in structure-of-arrays form: one array per field, and the
/// names packed into one blob.
#[derive(Debug, Clone)]
pub struct Tree {
    pub modes: Vec<u32>,
    pub hashes: Vec<crate::hash::Hash>,
    pub name_offsets: Vec<u32>,
    pub names_blob: Vec<u8>,
}

impl View for Tree {
    type V = Seq<TreeEntryView>;

    open spec fn view(&self) -> Seq<TreeEntryView> {
        Seq::new(
            self.modes@.len(),
            |i: int|
                TreeEntryView {
                    mode: self.modes@[i],
                    hash: self.hashes@[i],
                    name: packed_at(self.name_offsets@, self.names_blob@, i),
                },
        )
    }
}

/// Walks the entries of a tree in order.
pub struct TreeIterator<'tree> {
    pub tree: &'tree Tree,
    pub index: usize,
}

impl<'tree> TreeIterator<'tree> {
    /// The next entry, or `None` after the last.
    pub fn next(&mut self) -> (r: Option<TreeEntryRef<'tree>>)
        requires
            old(self).tree.wf(),
        ensures
            final(self).tree == old(self).tree,
            match r {
                Some(e) => old(self).index < old(self).tree@.len() && e@ == old(self).tree@[old(self).index as int] && final(self).index == old(self).index + 1,
                None => old(self).index >= old(self).tree@.len() && final(self).index == old(self).index,
            },
    {
        if self.index >= self.tree.count() {
            return None;
        }
        let e = TreeEntryRef {
            mode: self.tree.modes[self.index],
            hash: self.tree.hashes[self.index],
            name: self.tree.get_name(self.index),
        };
        self.index += 1;
        Some(e)
    }
}

impl Tree {
    /// The arrays have one length, the names are a packing, and every name
    /// is well-formed UTF-8.
    pub open spec fn wf(&self) -> bool {
        &&& self.modes@.len() <= u32::MAX
        &&& self.hashes@.len() == self.modes@.len()
        &&& self.name_offsets@.len() == self.modes@.len()
        &&& packed_ok(self.name_offsets@, self.names_blob@)
        &&& packed_utf8(self.name_offsets@, self.names_blob@)
    }

    /// The columns of a well-formed tree are the columns of its entries.
    pub proof fn lemma_columns(&self)
        requires
            self.wf(),
        ensures
            tree_modes(self@) == self.modes@,
            tree_hashes(self@) == self.hashes@,
            tree_names(self@) == unpack(self.name_offsets@, self.names_blob@),
            starts(tree_names(self@)) == self.name_offsets@,
            cat(tree_names(self@)) == self.names_blob@,
            tree_ok(self@),
    {
        assert(tree_modes(self@) =~= self.modes@);
        assert(tree_hashes(self@) =~= self.hashes@);
        assert(tree_names(self@) =~= unpack(self.name_offsets@, self.names_blob@));
        lemma_unpack_pack(self.name_offsets@, self.names_blob@);
    }

    /// An iterator at the first entry.
    pub fn iter(&self) -> (it: TreeIterator<'_>)
        ensures
            it.tree == self,
            it.index == 0,
    {
        TreeIterator { tree: self, index: 0 }
    }

    /// The number of entries.
    pub fn count(&self) -> (n: usize)
        ensures
            n == self@.len(),
    {
        self.modes.len()
    }

    /// The hash of the first entry called `name`, if there is one.
    pub fn find_in_tree(&self, name: &str) -> (r: Option<crate::hash::Hash>)
        requires
            self.wf(),
        ensures
            found_in(self@, name.spec_bytes(), r),
    {
        let n = self.count();
        let mut i: usize = 0;
        while i < n
            invariant
                i <= n,
                n == self.modes@.len(),
                n == self.hashes@.len(),
                n == self.name_offsets@.len(),
                packed_ok(self.name_offsets@, self.names_blob@),
                forall|k: int|
                    0 <= k < i ==> #[trigger] packed_at(self.name_offsets@, self.names_blob@, k)
                        != name.spec_bytes(),
            decreases n - i,
        {
            let s = packed_get(self.name_offsets.as_slice(), self.names_blob.as_slice(), i);
            if bytes_eq(s, name.as_bytes()) {
                proof {
                    assert forall|k: int| 0 <= k < i implies (#[trigger] self@[k]).name
                        != name.spec_bytes() by {
                        assert(self@[k].name == packed_at(self.name_offsets@, self.names_blob@, k));
                    }
                    assert(is_first_named(self@, name.spec_bytes(), i as int));
                }
                return Some(self.hashes[i]);
            }
            i += 1;
        }
        proof {
            assert forall|k: int| 0 <= k < self@.len() implies (#[trigger] self@[k]).name
                != name.spec_bytes() by {
                assert(self@[k].name == packed_at(self.name_offsets@, self.names_blob@, k));
            }
        }
        None
    }

    /// The name of entry `index`.
    pub fn get_name(&self, index: usize) -> (s: &str)
        requires
            self.wf(),
            index < self@.len(),
        ensures
            s.spec_bytes() == self@[index as int].name,
    {
        let bytes = packed_get(self.name_offsets.as_slice(), self.names_blob.as_slice(), index);
        str_from_utf8_data_shouldve_been_valid_or_we_got_hacked(bytes)
    }

    /// Entry `index`, with a name of its own.
    pub fn get_entry(&self, index: usize) -> (e: TreeEntry)
        requires
            self.wf(),
            index < self@.len(),
        ensures
            e@ == self@[index as int],
    {
        TreeEntry {
            mode: self.modes[index],
            hash: self.hashes[index],
            name: self.get_name(index).to_owned(),
        }
    }

    /// Writes the payload of the tree.
    pub fn write(&self, w: &mut WriteCursor<'_>)
        requires
            self.wf(),
        ensures
            final(w).written() == old(w).written() + tree_payload(self@),
            *final(final(w).buf) == *final(old(w).buf),
    {
        w.write_u32(self.modes.len() as u32);
        write_u32s(w, self.modes.as_slice());
        write_hashes(w, self.hashes.as_slice());
        write_u32s(w, self.name_offsets.as_slice());
        w.write_u32(self.names_blob.len() as u32);
        w.write_slice(self.names_blob.as_slice());
        proof {
            self.lemma_columns();
            assert(w.written() =~= old(w).written() + tree_payload(self@));
        }
    }

    /// Appends the payload of the tree to `buf`.
    pub fn encode_into(&self, buf: &mut Vec<u8>)
        requires
            self.wf(),
        ensures
            final(buf)@ == old(buf)@ + tree_payload(self@),
    {
        let mut w = WriteCursor::new(buf);
        self.write(&mut w);
    }

    /// Reads the payload of a tree off the front of the cursor. It succeeds
    /// exactly when the unread bytes start with the payload of an encodable
    /// tree, and returns that tree.
    #[verifier::spinoff_prover]
    pub fn read(r: &mut ReadCursor<'_>) -> (res: Result<Tree, Error>)
        ensures
            match res {
                Ok(t) => t.wf() && old(r).rest() == tree_payload(t@) + final(r).rest(),
                Err(e) => e == Error::CorruptObjectDatabase && forall|
                    es: Seq<TreeEntryView>,
                    tail: Seq<u8>,
                |
                    tree_ok(es) ==> old(r).rest() != #[trigger] (tree_payload(es) + tail),
            },
    {
        let ghost rest0 = r.rest();
        let ghost e0 = Seq::<u8>::empty();
        let ghost u0 = Seq::<u32>::empty();
        let ghost h0 = Seq::<crate::hash::Hash>::empty();
        let n = match r.read_u32() {
            Ok(n) => n,
            Err(e) => {
                proof {
                    lemma_tree_unreadable(rest0, 0, 0, e0, u0, e0, h0, e0, u0, e0, 0, e0, e0, e0);
                }
                return Err(e);
            },
        };
        let ghost r1 = r.rest();
        let modes = match read_u32s(r, n as usize) {
            Ok(v) => v,
            Err(e) => {
                proof {
                    lemma_tree_unreadable(rest0, 1, n, r1, u0, e0, h0, e0, u0, e0, 0, e0, e0, e0);
                }
                return Err(e);
            },
        };
        let ghost r2 = r.rest();
        let hashes = match read_hashes(r, n as usize) {
            Ok(v) => v,
            Err(e) => {
                proof {
                    lemma_tree_unreadable(rest0, 2, n, r1, modes@, r2, h0, e0, u0, e0, 0, e0, e0, e0);
                }
                return Err(e);
            },
        };
        let ghost r3 = r.rest();
        let offsets = match read_u32s(r, n as usize) {
            Ok(v) => v,
            Err(e) => {
                proof {
                    lemma_tree_unreadable(rest0, 3, n, r1, modes@, r2, hashes@, r3, u0, e0, 0, e0, e0, e0);
                }
                return Err(e);
            },
        };
        let ghost r4 = r.rest();
        let l = match r.read_u32() {
            Ok(l) => l,
            Err(e) => {
                proof {
                    lemma_tree_unreadable(rest0, 4, n, r1, modes@, r2, hashes@, r3, offsets@, r4, 0, e0, e0, e0);
                }
                return Err(e);
            },
        };
        let ghost r5 = r.rest();
        let blob = match r.read_bytes(l as usize) {
            Ok(b) => b,
            Err(e) => {
                proof {
                    lemma_tree_unreadable(rest0, 5, n, r1, modes@, r2, hashes@, r3, offsets@, r4, l, r5, e0, e0);
                }
                return Err(e);
            },
        };
        let ghost r6 = r.rest();
        if !check_packed(offsets.as_slice(), blob) || !check_packed_utf8(offsets.as_slice(), blob) {
            proof {
                lemma_tree_unreadable(rest0, 6, n, r1, modes@, r2, hashes@, r3, offsets@, r4, l, r5, blob@, r6);
            }
            return Err(Error::CorruptObjectDatabase);
        }
        let t = Tree { modes, hashes, name_offsets: offsets, names_blob: slice_to_vec(blob) };
        proof {
            lemma_tree_readable(t, rest0, r1, r2, r3, r4, r5, r6);
        }
        Ok(t)
    }

    /// Decodes a tree payload. It succeeds exactly when `data` is the
    /// payload of an encodable tree, with no byte after it, and returns that
    /// tree.
    pub fn decode(data: &[u8]) -> (res: Result<Tree, Error>)
        ensures
            match res {
                Ok(t) => t.wf() && data@ == tree_payload(t@),
                Err(e) => e == Error::CorruptObjectDatabase && forall|es: Seq<TreeEntryView>|
                    tree_ok(es) ==> data@ != #[trigger] tree_payload(es),
            },
    {
        let mut r = ReadCursor::new(data);
        match Tree::read(&mut r) {
            Ok(t) => {
                if r.at_end() {
                    assert(r.rest() =~= Seq::<u8>::empty());
                    assert(tree_payload(t@) + r.rest() =~= tree_payload(t@));
                    Ok(t)
                } else {
                    proof {
                        t.lemma_columns();
                        assert forall|es: Seq<TreeEntryView>| tree_ok(es) implies data@
                            != #[trigger] tree_payload(es) by {
                            if data@ == tree_payload(es) {
                                assert(tree_payload(es) + Seq::<u8>::empty() =~= tree_payload(es));
                                lemma_tree_payload_injective(
                                    t@,
                                    r.rest(),
                                    es,
                                    Seq::<u8>::empty(),
                                );
                            }
                        }
                    }
                    Err(Error::CorruptObjectDatabase)
                }
            },
            Err(e) => {
                proof {
                    assert forall|es: Seq<TreeEntryView>| tree_ok(es) implies data@
                        != #[trigger] tree_payload(es) by {
                        assert(tree_payload(es) + Seq::<u8>::empty() =~= tree_payload(es));
                    }
                }
                Err(e)
            },
        }
    }
}

impl Tree {
    /// The entries of the tree, each with a name of its own.
    pub fn to_entries(&self) -> (v: Vec<TreeEntry>)
        requires
            self.wf(),
        ensures
            entry_views(v@) == self@,
    {
        let n = self.count();
        let mut v: Vec<TreeEntry> = Vec::new();
        let mut i: usize = 0;
        while i < n
            invariant
                i <= n,
                n == self@.len(),
                self.wf(),
                v@.len() == i,
                forall|j: int| 0 <= j < i ==> (#[trigger] v@[j])@ == self@[j],
            decreases n - i,
        {
            let e = self.get_entry(i);
            v.push(e);
            i += 1;
        }
        assert(entry_views(v@) =~= self@);
        v
    }

    /// The tree that holds `entries`, in their order.
    pub fn from_entries(entries: &[TreeEntry]) -> (t: Tree)
        requires
            tree_ok(entry_views(entries@)),
        ensures
            t.wf(),
            t@ == entry_views(entries@),
    {
        let ghost all = entry_views(entries@);
        let n = entries.len();
        let mut b = crate::tree_builder::TreeBuilder::new();
        let mut i: usize = 0;
        assert(b.entries() =~= all.take(0));
        while i < n
            invariant
                i <= n,
                n == entries@.len(),
                all == entry_views(entries@),
                tree_ok(all),
                b.wf(),
                b.entries() == all.take(i as int),
            decreases n - i,
        {
            proof {
                crate::soa::lemma_cat_take(tree_names(all), i as int);
                crate::soa::lemma_cat_take(tree_names(all), i + 1);
                assert(tree_names(all.take(i as int)) =~= tree_names(all).take(i as int));
            }
            b.add(entries[i].mode, entries[i].hash, entries[i].name.as_str());
            assert(b.entries() =~= all.take(i + 1));
            i += 1;
        }
        assert(all.take(n as int) =~= all);
        b.build()
    }
}

/// A tree payload that owns its entries.
pub struct TreePayloadOwned {
    pub entries: Vec<TreeEntry>,
}

/// A tree payload over borrowed entries.
pub struct TreePayloadView<'a> {
    pub entries: &'a [TreeEntry],
}

/// A tree payload that stands in a store, by id.
pub struct TreePayloadRef<'a> {
    pub store: &'a crate::store::TreeStore,
    pub id: crate::store::TreeId,
}

impl TreePayloadOwned {
    /// The payload made of `entries`.
    pub fn new(entries: Vec<TreeEntry>) -> (p: Self)
        ensures
            p.entries == entries,
    {
        Self { entries }
    }

    /// The payload, borrowed.
    pub fn payload_view(&self) -> (v: TreePayloadView<'_>)
        ensures
            v.entries@ == self.entries@,
    {
        TreePayloadView { entries: self.entries.as_slice() }
    }
}

impl<'a> TreePayloadRef<'a> {
    /// Names tree `id` of `store`.
    pub fn new(store: &'a crate::store::TreeStore, id: crate::store::TreeId) -> (p: Self)
        ensures
            p.store == store,
            p.id == id,
    {
        Self { store, id }
    }

    /// The payload, read out of the store.
    pub fn payload(self) -> (p: TreePayloadOwned)
        requires
            self.store.wf(),
            self.id.index() < self.store@.len(),
        ensures
            entry_views(p.entries@) == self.store@[self.id.index() as int],
    {
        let n = self.store.entry_count(self.id);
        let mut entries: Vec<TreeEntry> = Vec::new();
        let mut j: usize = 0;
        while j < n
            invariant
                j <= n,
                self.store.wf(),
                self.id.index() < self.store@.len(),
                n == self.store@[self.id.index() as int].len(),
                entries@.len() == j,
                forall|k: int|
                    0 <= k < j ==> (#[trigger] entries@[k])@ == self.store@[self.id.index() as int][k],
            decreases n - j,
        {
            entries.push(self.store.get_entry(self.id, j));
            j += 1;
        }
        assert(entry_views(entries@) =~= self.store@[self.id.index() as int]);
        TreePayloadOwned::new(entries)
    }
}

impl Decode for TreePayloadOwned {
    open spec fn wire(&self) -> Seq<u8> {
        tree_payload(entry_views(self.entries@))
    }

    open spec fn fits(&self) -> bool {
        tree_ok(entry_views(self.entries@))
    }

    fn decode(r: &mut ReadCursor<'_>) -> (res: Result<Self, Error>) {
        match Tree::read(r) {
            Ok(t) => {
                proof {
                    t.lemma_columns();
                }
                Ok(TreePayloadOwned::new(t.to_entries()))
            },
            Err(e) => Err(e),
        }
    }
}

impl Encode for TreePayloadView<'_> {
    open spec fn wire(&self) -> Seq<u8> {
        tree_payload(entry_views(self.entries@))
    }

    open spec fn fits(&self) -> bool {
        tree_ok(entry_views(self.entries@))
    }

    fn encode(&self, w: &mut WriteCursor<'_>) {
        let t = Tree::from_entries(self.entries);
        t.write(w);
    }
}

} // verus!
