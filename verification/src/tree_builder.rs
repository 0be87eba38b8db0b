//! Builds a tree entry by entry.

use crate::soa::{
    cat, lemma_packed_push, lemma_unpack_pack, packed_at, packed_ok, packed_utf8, unpack,
};
use crate::tree::{tree_names, Tree, TreeEntryView};
use vstd::prelude::*;
use vstd::string::StringSliceAdditionalSpecFns;
use vstd::utf8::{encode_utf8_valid_utf8, valid_utf8};

verus! {

/// A tree under construction. Entries keep the order in which they are
/// added.
pub struct TreeBuilder {
    modes: Vec<u32>,
    hashes: Vec<crate::hash::Hash>,
    names_blob: Vec<u8>,
    name_offsets: Vec<u32>,
}

impl TreeBuilder {
    /// The arrays have one length and the names are a packing of
    /// well-formed strings.
    pub closed spec fn wf(&self) -> bool {
        &&& self.modes@.len() <= u32::MAX
        &&& self.hashes@.len() == self.modes@.len()
        &&& self.name_offsets@.len() == self.modes@.len()
        &&& packed_ok(self.name_offsets@, self.names_blob@)
        &&& packed_utf8(self.name_offsets@, self.names_blob@)
    }

    /// The entries added so far.
    pub closed spec fn entries(&self) -> Seq<TreeEntryView> {
        Seq::new(
            self.modes@.len(),
            |i: int|
                TreeEntryView {
                    mode: self.modes@[i],
                    hash: self.hashes@[i],
                    name: packed_at(self.name_offsets@, self.names_blob@, i),
                },
        )
    }

    /// Whether one more entry called `name` fits: the count and the total
    /// length of the names must stay within a `u32`.
    pub open spec fn has_room(&self, name: Seq<u8>) -> bool {
        self.entries().len() < u32::MAX && cat(tree_names(self.entries())).len() + name.len()
            <= u32::MAX
    }

    /// A builder with no entries.
    pub fn new() -> (b: Self)
        ensures
            b.wf(),
            b.entries() == Seq::<TreeEntryView>::empty(),
    {
        let b = Self {
            modes: Vec::new(),
            hashes: Vec::new(),
            names_blob: Vec::new(),
            name_offsets: Vec::new(),
        };
        assert(b.entries() =~= Seq::<TreeEntryView>::empty());
        b
    }

    /// Whether one more entry called `name` fits.
    pub fn can_add(&self, name: &str) -> (r: bool)
        requires
            self.wf(),
        ensures
            r == self.has_room(name.spec_bytes()),
    {
        proof {
            assert(tree_names(self.entries()) =~= unpack(self.name_offsets@, self.names_blob@));
            lemma_unpack_pack(self.name_offsets@, self.names_blob@);
        }
        self.modes.len() < u32::MAX as usize && name.as_bytes().len() <= u32::MAX as usize
            - self.names_blob.len()
    }

    /// Adds an entry after those added before.
    pub fn add(&mut self, mode: u32, hash: crate::hash::Hash, name: &str)
        requires
            old(self).wf(),
            old(self).has_room(name.spec_bytes()),
        ensures
            final(self).wf(),
            final(self).entries() == old(self).entries().push(
                TreeEntryView { mode, hash, name: name.spec_bytes() },
            ),
    {
        proof {
            assert(tree_names(self.entries()) =~= unpack(self.name_offsets@, self.names_blob@));
            lemma_unpack_pack(self.name_offsets@, self.names_blob@);
            lemma_packed_push(self.name_offsets@, self.names_blob@, name.spec_bytes());
            encode_utf8_valid_utf8(name@);
        }
        let ghost old_offsets = self.name_offsets@;
        let ghost old_blob = self.names_blob@;
        self.modes.push(mode);
        self.hashes.push(hash);
        self.name_offsets.push(self.names_blob.len() as u32);
        self.names_blob.extend_from_slice(name.as_bytes());
        proof {
            assert(self.names_blob@ =~= old_blob + name.spec_bytes());
            assert(unpack(self.name_offsets@, self.names_blob@) == unpack(old_offsets, old_blob).push(
                name.spec_bytes(),
            ));
            assert forall|i: int| 0 <= i < self.name_offsets@.len() implies valid_utf8(
                #[trigger] packed_at(self.name_offsets@, self.names_blob@, i),
            ) by {
                assert(packed_at(self.name_offsets@, self.names_blob@, i) == unpack(
                    self.name_offsets@,
                    self.names_blob@,
                )[i]);
                if i < old_offsets.len() {
                    assert(unpack(old_offsets, old_blob)[i] == packed_at(old_offsets, old_blob, i));
                }
            }
            assert forall|i: int| 0 <= i < self.entries().len() implies self.entries()[i] == old(self).entries().push(TreeEntryView { mode, hash, name: name.spec_bytes() })[i] by {
                assert(packed_at(self.name_offsets@, self.names_blob@, i) == unpack(
                    self.name_offsets@,
                    self.names_blob@,
                )[i]);
                if i < old_offsets.len() {
                    assert(unpack(old_offsets, old_blob)[i] == packed_at(old_offsets, old_blob, i));
                }
            }
            assert(self.entries() =~= old(self).entries().push(
                TreeEntryView { mode, hash, name: name.spec_bytes() },
            ));
        }
    }

    /// The tree of the entries added.
    pub fn build(self) -> (t: Tree)
        requires
            self.wf(),
        ensures
            t.wf(),
            t@ == self.entries(),
    {
        let t = Tree {
            modes: self.modes,
            hashes: self.hashes,
            name_offsets: self.name_offsets,
            names_blob: self.names_blob,
        };
        assert(t@ =~= self.entries());
        t
    }
}

} // verus!
