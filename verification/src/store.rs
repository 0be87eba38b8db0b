//! The in-memory object stores: one flat arena per kind of object, keyed by
//! dense `u32` ids.

use crate::commit::CommitView;
use crate::error::Error;
use crate::object::{object_ok, record, Object, ObjectTag, ObjectView};
use crate::wire::{Encode, WriteCursor};
use crate::soa::cat;
use crate::tree::{entry_views, found_in, is_first_named, tree_names, TreeEntry, TreeEntryView};
use crate::util::{bytes_eq, str_from_utf8_data_shouldve_been_valid_or_we_got_hacked};
use vstd::prelude::*;
use vstd::slice::slice_subrange;
use vstd::string::StringSliceAdditionalSpecFns;
use vstd::utf8::{encode_utf8_valid_utf8, valid_utf8};

verus! {

/// The id of a blob in a `BlobStore`.
#[derive(Debug, Clone, Copy, PartialEq, Eq, Hash, Structural)]
pub struct BlobId(pub u32);

/// The id of a tree in a `TreeStore`.
#[derive(Debug, Clone, Copy, PartialEq, Eq, Hash, Structural)]
pub struct TreeId(pub u32);

/// The id of a commit in a `CommitStore`.
#[derive(Debug, Clone, Copy, PartialEq, Eq, Hash, Structural)]
pub struct CommitId(pub u32);

impl BlobId {
    /// The id of the entity at `index`.
    pub fn new(index: usize) -> (id: Self)
        requires
            index <= u32::MAX,
        ensures
            id.index() == index,
    {
        BlobId(index as u32)
    }

    /// The position that the id stands for.
    pub open spec fn spec_index(self) -> usize {
        self.0 as usize
    }

    /// The position that the id stands for.
    #[verifier::when_used_as_spec(spec_index)]
    pub fn index(self) -> (i: usize)
        ensures
            i == self.spec_index(),
    {
        self.0 as usize
    }
}

impl TreeId {
    /// The id of the entity at `index`.
    pub fn new(index: usize) -> (id: Self)
        requires
            index <= u32::MAX,
        ensures
            id.index() == index,
    {
        TreeId(index as u32)
    }

    /// The position that the id stands for.
    pub open spec fn spec_index(self) -> usize {
        self.0 as usize
    }

    /// The position that the id stands for.
    #[verifier::when_used_as_spec(spec_index)]
    pub fn index(self) -> (i: usize)
        ensures
            i == self.spec_index(),
    {
        self.0 as usize
    }
}

impl CommitId {
    /// The id of the entity at `index`.
    pub fn new(index: usize) -> (id: Self)
        requires
            index <= u32::MAX,
        ensures
            id.index() == index,
    {
        CommitId(index as u32)
    }

    /// The position that the id stands for.
    pub open spec fn spec_index(self) -> usize {
        self.0 as usize
    }

    /// The position that the id stands for.
    #[verifier::when_used_as_spec(spec_index)]
    pub fn index(self) -> (i: usize)
        ensures
            i == self.spec_index(),
    {
        self.0 as usize
    }
}

/// `new` is `old` with one more tree, of the entries `all`, behind the
/// array entries and names that `old` holds.
pub open spec fn extended(old: TreeStore, new: TreeStore, all: Seq<TreeEntryView>) -> bool {
    let m0 = old.modes@.len() as int;
    let b0 = old.names_blob@.len() as int;
    let names = tree_names(all);
    &&& new.entry_start@ == old.entry_start@.push(m0 as u32)
    &&& new.entry_end@ == old.entry_end@.push((m0 + all.len()) as u32)
    &&& new.name_end@ == old.name_end@.push((b0 + cat(names).len()) as u32)
    &&& new.modes@ == old.modes@ + crate::tree::tree_modes(all)
    &&& new.hashes@ == old.hashes@ + crate::tree::tree_hashes(all)
    &&& new.name_offsets@.len() == m0 + all.len()
    &&& forall|k: int| 0 <= k < m0 ==> new.name_offsets@[k] == old.name_offsets@[k]
    &&& forall|k: int|
        0 <= k < all.len() ==> new.name_offsets@[m0 + k] == b0 + cat(names.take(k)).len()
    &&& new.names_blob@ == old.names_blob@ + cat(names)
}

/// In an extended store, an entry of a tree that was there is what it was.
pub proof fn lemma_extended_old(
    old: TreeStore,
    new: TreeStore,
    all: Seq<TreeEntryView>,
    i: int,
    idx: int,
)
    requires
        old.wf(),
        old.has_room(all),
        extended(old, new, all),
        0 <= i < old.entry_start@.len(),
        old.entry_start@[i] <= idx < old.entry_end@[i],
    ensures
        new.name_stop(i, idx) == old.name_stop(i, idx),
        new.entry_at(i, idx) == old.entry_at(i, idx),
{
    assert(old.entry_start@[i] <= old.entry_end@[i] <= old.modes@.len());
    assert(old.name_offsets@[idx] <= old.name_stop(i, idx) <= old.names_blob@.len());
    assert(new.entry_at(i, idx).name =~= old.entry_at(i, idx).name);
}

/// In an extended store, entry `k` of the new tree is `all[k]`, and its
/// name lies within the names buffer.
pub proof fn lemma_extended_new(old: TreeStore, new: TreeStore, all: Seq<TreeEntryView>, k: int)
    requires
        old.wf(),
        old.has_room(all),
        extended(old, new, all),
        0 <= k < all.len(),
    ensures
        new.name_offsets@[old.modes@.len() + k] <= new.name_stop(
            old.entry_start@.len() as int,
            old.modes@.len() + k,
        ) <= new.names_blob@.len(),
        new.entry_at(old.entry_start@.len() as int, old.modes@.len() + k) == all[k],
{
    let m0 = old.modes@.len() as int;
    let b0 = old.names_blob@.len() as int;
    let t0 = old.entry_start@.len() as int;
    let names = tree_names(all);
    let blob = new.names_blob@;
    crate::soa::lemma_cat_take(names, k);
    crate::soa::lemma_cat_take(names, k + 1);
    let a = cat(names.take(k)).len() as int;
    let b = cat(names.take(k + 1)).len() as int;
    if k + 1 == all.len() {
        assert(names.take(k + 1) =~= names);
    }
    assert(new.name_stop(t0, m0 + k) == b0 + b);
    assert(blob.subrange(b0 + a, b0 + b) =~= cat(names).subrange(a, b));
    assert(cat(names).subrange(a, b) =~= cat(names).subrange(0, b).subrange(a, b));
    assert((cat(names.take(k)) + names[k]).subrange(a, b) =~= names[k]);
}

/// An extended store holds the trees that were there, then the new one.
pub proof fn lemma_extended_view(old: TreeStore, new: TreeStore, all: Seq<TreeEntryView>)
    requires
        old.wf(),
        old.has_room(all),
        extended(old, new, all),
    ensures
        new@ == old@.push(all),
{
    let t0 = old.entry_start@.len() as int;
    let m0 = old.modes@.len() as int;
    assert forall|i: int| 0 <= i < new@.len() implies new@[i] == old@.push(all)[i] by {
        if i < t0 {
            assert(old.entry_start@[i] <= old.entry_end@[i] <= m0);
            assert forall|j: int| 0 <= j < old.tree_at(i).len() implies new.tree_at(i)[j]
                == old.tree_at(i)[j] by {
                lemma_extended_old(old, new, all, i, old.entry_start@[i] + j);
            }
            assert(new.tree_at(i) =~= old.tree_at(i));
        } else {
            assert forall|k: int| 0 <= k < all.len() implies new.tree_at(i)[k] == all[k] by {
                lemma_extended_new(old, new, all, k);
            }
            assert(new.tree_at(i) =~= all);
        }
    }
    assert(new@ =~= old@.push(all));
}

/// An extended store is well-formed, if the new names are.
pub proof fn lemma_extended_wf(old: TreeStore, new: TreeStore, all: Seq<TreeEntryView>)
    requires
        old.wf(),
        old.has_room(all),
        extended(old, new, all),
        forall|k: int| 0 <= k < all.len() ==> valid_utf8(#[trigger] all[k].name),
    ensures
        new.wf(),
{
    let t0 = old.entry_start@.len() as int;
    let m0 = old.modes@.len() as int;
    assert forall|i: int| 0 <= i < new.entry_start@.len() implies (#[trigger] new.entry_start@[i])
        <= new.entry_end@[i] <= new.modes@.len() by {
        if i < t0 {
            assert(old.entry_start@[i] <= old.entry_end@[i] <= m0);
        }
    }
    assert forall|i: int, idx: int|
        0 <= i < new.entry_start@.len() && new.entry_start@[i] <= idx
            < new.entry_end@[i] implies new.name_offsets@[idx] <= #[trigger] new.name_stop(i, idx)
        <= new.names_blob@.len() by {
        if i < t0 {
            lemma_extended_old(old, new, all, i, idx);
            assert(old.name_offsets@[idx] <= old.name_stop(i, idx) <= old.names_blob@.len());
        } else {
            lemma_extended_new(old, new, all, idx - m0);
        }
    }
    assert forall|i: int, idx: int|
        0 <= i < new.entry_start@.len() && new.entry_start@[i] <= idx
            < new.entry_end@[i] implies valid_utf8((#[trigger] new.entry_at(i, idx)).name) by {
        if i < t0 {
            lemma_extended_old(old, new, all, i, idx);
            assert(valid_utf8(old.entry_at(i, idx).name));
        } else {
            lemma_extended_new(old, new, all, idx - m0);
        }
    }
}

/// Blobs, back to back in one buffer.
pub struct BlobStore {
    pub lengths: Vec<u32>,
    pub offsets: Vec<u32>,
    pub data: Vec<u8>,
}

impl View for BlobStore {
    type V = Seq<Seq<u8>>;

    open spec fn view(&self) -> Seq<Seq<u8>> {
        Seq::new(
            self.lengths@.len(),
            |i: int|
                self.data@.subrange(
                    self.offsets@[i] as int,
                    self.offsets@[i] as int + self.lengths@[i] as int,
                ),
        )
    }
}

impl BlobStore {
    /// Every blob lies within the buffer, and the buffer and the number of
    /// blobs stay within what a `u32` can say.
    pub open spec fn wf(&self) -> bool {
        &&& self.lengths@.len() == self.offsets@.len()
        &&& self.lengths@.len() <= u32::MAX
        &&& self.data@.len() <= u32::MAX
        &&& forall|i: int|
            0 <= i < self.lengths@.len() ==> (#[trigger] self.offsets@[i]) + self.lengths@[i]
                <= self.data@.len()
    }

    /// Whether a blob of `n` bytes can still be pushed.
    pub open spec fn has_room(&self, n: nat) -> bool {
        self.lengths@.len() < u32::MAX && self.data@.len() + n <= u32::MAX
    }

    /// Whether the store is new: it holds no blobs, and its buffer is
    /// empty.
    pub open spec fn unused(&self) -> bool {
        self@ == Seq::<Seq<u8>>::empty() && self.data@.len() == 0
    }

    /// A store with no blobs and an empty buffer: every blob that a `u32`
    /// can measure has room in it.
    pub fn new() -> (s: Self)
        ensures
            s.wf(),
            s.unused(),
            s@ == Seq::<Seq<u8>>::empty(),
            s.data@.len() == 0,
            forall|n: nat| s.has_room(n) == (n <= u32::MAX),
    {
        let s = BlobStore { lengths: Vec::new(), offsets: Vec::new(), data: Vec::new() };
        assert(s@ =~= Seq::<Seq<u8>>::empty());
        s
    }

    /// Whether a blob of `n` bytes can still be pushed.
    pub fn can_push(&self, n: usize) -> (r: bool)
        requires
            self.wf(),
        ensures
            r == self.has_room(n as nat),
    {
        self.lengths.len() < u32::MAX as usize && n <= u32::MAX as usize - self.data.len()
    }

    /// Stores a blob and gives it the next id.
    pub fn push(&mut self, bytes: &[u8]) -> (id: BlobId)
        requires
            old(self).wf(),
            old(self).has_room(bytes@.len()),
        ensures
            final(self).wf(),
            final(self)@ == old(self)@.push(bytes@),
            final(self).data@ == old(self).data@ + bytes@,
            id.index() == old(self)@.len(),
    {
        let id = BlobId::new(self.lengths.len());
        self.offsets.push(self.data.len() as u32);
        self.lengths.push(bytes.len() as u32);
        self.data.extend_from_slice(bytes);
        proof {
            assert(self.data@ =~= old(self).data@ + bytes@);
            assert forall|i: int| 0 <= i < self@.len() implies self@[i] == old(self)@.push(
                bytes@,
            )[i] by {
                if i < old(self)@.len() {
                    assert(old(self).offsets@[i] + old(self).lengths@[i] <= old(self).data@.len());
                    assert(self@[i] =~= old(self)@[i]);
                } else {
                    assert(self@[i] =~= bytes@);
                }
            }
            assert(self@ =~= old(self)@.push(bytes@));
        }
        id
    }

    /// The bytes of blob `id`.
    pub fn get(&self, id: BlobId) -> (r: &[u8])
        requires
            self.wf(),
            id.index() < self@.len(),
        ensures
            r@ == self@[id.index() as int],
    {
        let i = id.index();
        let start = self.offsets[i] as usize;
        let len = self.lengths[i] as usize;
        assert(self.offsets@[i as int] + self.lengths@[i as int] <= self.data@.len());
        slice_subrange(self.data.as_slice(), start, start + len)
    }
}

/// How much of a tree store is used: the number of its trees, of their
/// entries and of the bytes of their names.
pub struct Used {
    pub trees: nat,
    pub entries: nat,
    pub bytes: nat,
}

impl Used {
    /// Whether a tree of these entries can still be stored: the numbers
    /// must stay within what a `u32` can say.
    pub open spec fn takes(self, entries: Seq<TreeEntryView>) -> bool {
        &&& self.trees < u32::MAX
        &&& self.entries + entries.len() <= u32::MAX
        &&& self.bytes + cat(tree_names(entries)).len() <= u32::MAX
    }

    /// What is used once a tree of these entries is stored.
    pub open spec fn with(self, entries: Seq<TreeEntryView>) -> Used {
        Used {
            trees: self.trees + 1,
            entries: self.entries + entries.len(),
            bytes: self.bytes + cat(tree_names(entries)).len(),
        }
    }
}

/// Trees, their entries back to back in parallel arrays and their names in
/// one buffer.
pub struct TreeStore {
    pub entry_start: Vec<u32>,
    pub entry_end: Vec<u32>,
    pub modes: Vec<u32>,
    pub hashes: Vec<crate::hash::Hash>,
    pub name_offsets: Vec<u32>,
    pub name_end: Vec<u32>,
    pub names_blob: Vec<u8>,
}

impl View for TreeStore {
    type V = Seq<Seq<TreeEntryView>>;

    open spec fn view(&self) -> Seq<Seq<TreeEntryView>> {
        Seq::new(self.entry_start@.len(), |i: int| self.tree_at(i))
    }
}

impl TreeStore {
    /// Where the name of entry `idx` of tree `i` ends.
    pub open spec fn name_stop(&self, i: int, idx: int) -> int {
        if idx + 1 < self.entry_end@[i] {
            self.name_offsets@[idx + 1] as int
        } else {
            self.name_end@[i] as int
        }
    }

    /// Entry `idx` of the flat arrays, as an entry of tree `i`.
    pub open spec fn entry_at(&self, i: int, idx: int) -> TreeEntryView {
        TreeEntryView {
            mode: self.modes@[idx],
            hash: self.hashes@[idx],
            name: self.names_blob@.subrange(self.name_offsets@[idx] as int, self.name_stop(i, idx)),
        }
    }

    /// The entries of tree `i`.
    pub open spec fn tree_at(&self, i: int) -> Seq<TreeEntryView> {
        Seq::new(
            (self.entry_end@[i] - self.entry_start@[i]) as nat,
            |j: int| self.entry_at(i, self.entry_start@[i] + j),
        )
    }

    /// The arrays agree in length, every tree is a range of entries, every
    /// name lies within the names buffer and is well-formed UTF-8, and all
    /// of it stays within what a `u32` can say.
    pub open spec fn wf(&self) -> bool {
        &&& self.entry_start@.len() == self.entry_end@.len()
        &&& self.entry_start@.len() == self.name_end@.len()
        &&& self.entry_start@.len() <= u32::MAX
        &&& self.modes@.len() == self.hashes@.len()
        &&& self.modes@.len() == self.name_offsets@.len()
        &&& self.modes@.len() <= u32::MAX
        &&& self.names_blob@.len() <= u32::MAX
        &&& forall|i: int|
            0 <= i < self.entry_start@.len() ==> (#[trigger] self.entry_start@[i])
                <= self.entry_end@[i] <= self.modes@.len()
        &&& forall|i: int, idx: int|
            0 <= i < self.entry_start@.len() && self.entry_start@[i] <= idx < self.entry_end@[i]
                ==> self.name_offsets@[idx] <= #[trigger] self.name_stop(i, idx)
                <= self.names_blob@.len()
        &&& forall|i: int, idx: int|
            0 <= i < self.entry_start@.len() && self.entry_start@[i] <= idx < self.entry_end@[i]
                ==> valid_utf8((#[trigger] self.entry_at(i, idx)).name)
    }

    /// Whether a tree of these entries can still be stored.
    pub open spec fn has_room(&self, entries: Seq<TreeEntryView>) -> bool {
        self.used().takes(entries)
    }

    /// How much of the store is used.
    pub open spec fn used(&self) -> Used {
        Used {
            trees: self.entry_start@.len(),
            entries: self.modes@.len(),
            bytes: self.names_blob@.len(),
        }
    }

    /// Whether the store is new: it holds no trees, and nothing of it is
    /// used.
    pub open spec fn unused(&self) -> bool {
        self@ == Seq::<Seq<TreeEntryView>>::empty() && self.used() == (Used {
            trees: 0,
            entries: 0,
            bytes: 0,
        })
    }

    /// A store with no trees, of which nothing is used.
    pub fn new() -> (s: Self)
        ensures
            s.wf(),
            s.unused(),
            s@ == Seq::<Seq<TreeEntryView>>::empty(),
            s.used() == (Used { trees: 0, entries: 0, bytes: 0 }),
    {
        let s = TreeStore {
            entry_start: Vec::new(),
            entry_end: Vec::new(),
            modes: Vec::new(),
            hashes: Vec::new(),
            name_offsets: Vec::new(),
            name_end: Vec::new(),
            names_blob: Vec::new(),
        };
        assert(s@ =~= Seq::<Seq<TreeEntryView>>::empty());
        s
    }

    /// The names of a stored tree lie back to back in the names buffer:
    /// the first `j` of them take up the bytes between the first name's
    /// start and the start of name `j`.
    pub proof fn lemma_names_contiguous(&self, i: int, j: int)
        requires
            self.wf(),
            0 <= i < self@.len(),
            0 <= j <= self@[i].len(),
        ensures
            self@[i].len() > 0 ==> cat(tree_names(self@[i]).take(j)).len() == (if j
                < self@[i].len() {
                self.name_offsets@[self.entry_start@[i] + j] as int
            } else {
                self.name_end@[i] as int
            }) - self.name_offsets@[self.entry_start@[i] as int],
            self@[i].len() == 0 ==> cat(tree_names(self@[i]).take(j)).len() == 0,
        decreases j,
    {
        let es = self@[i];
        let names = tree_names(es);
        let base = self.entry_start@[i] as int;
        assert(self.entry_start@[i] <= self.entry_end@[i] <= self.modes@.len());
        if j == 0 {
            assert(names.take(0) =~= Seq::<Seq<u8>>::empty());
        } else {
            self.lemma_names_contiguous(i, j - 1);
            assert(names.take(j).drop_last() =~= names.take(j - 1));
            assert(names.take(j).last() == es[j - 1].name);
            assert(es[j - 1] == self.entry_at(i, base + j - 1));
            assert(self.name_offsets@[base + j - 1] <= self.name_stop(i, base + j - 1)
                <= self.names_blob@.len());
        }
    }

    /// A stored tree can be encoded.
    pub proof fn lemma_tree_ok(&self, i: int)
        requires
            self.wf(),
            0 <= i < self@.len(),
        ensures
            crate::tree::tree_ok(self@[i]),
    {
        let es = self@[i];
        let base = self.entry_start@[i] as int;
        assert(self.entry_start@[i] <= self.entry_end@[i] <= self.modes@.len());
        self.lemma_names_contiguous(i, es.len() as int);
        assert(tree_names(es).take(es.len() as int) =~= tree_names(es));
        if es.len() > 0 {
            assert(self.name_offsets@[base + es.len() - 1] <= self.name_stop(i, base + es.len() - 1)
                <= self.names_blob@.len());
        }
        assert forall|j: int| 0 <= j < es.len() implies valid_utf8(#[trigger] es[j].name) by {
            assert(es[j] == self.entry_at(i, base + j));
        }
    }

    /// Stores a tree of `entries`, in their order, and gives it the next id.
    pub fn extend(&mut self, entries: &[TreeEntry]) -> (id: TreeId)
        requires
            old(self).wf(),
            old(self).has_room(entry_views(entries@)),
        ensures
            final(self).wf(),
            final(self)@ == old(self)@.push(entry_views(entries@)),
            final(self).used() == old(self).used().with(entry_views(entries@)),
            id.index() == old(self)@.len(),
    {
        let ghost all = entry_views(entries@);
        let ghost names = tree_names(all);
        let ghost m0 = self.modes@.len() as int;
        let ghost b0 = self.names_blob@.len() as int;
        let id = TreeId::new(self.entry_start.len());
        let start = self.modes.len() as u32;
        self.entry_start.push(start);
        let n = entries.len();
        let mut j: usize = 0;
        proof {
            assert(names.take(0) =~= Seq::<Seq<u8>>::empty());
            assert(self.names_blob@ =~= old(self).names_blob@ + cat(names.take(0)));
        }
        while j < n
            invariant
                j <= n,
                n == entries@.len(),
                all == entry_views(entries@),
                names == tree_names(all),
                old(self).wf(),
                old(self).has_room(all),
                m0 == old(self).modes@.len(),
                b0 == old(self).names_blob@.len(),
                self.entry_start@ == old(self).entry_start@.push(m0 as u32),
                self.entry_end@ == old(self).entry_end@,
                self.name_end@ == old(self).name_end@,
                self.modes@.len() == m0 + j,
                self.hashes@.len() == m0 + j,
                self.name_offsets@.len() == m0 + j,
                forall|k: int| 0 <= k < m0 ==> self.modes@[k] == old(self).modes@[k],
                forall|k: int| 0 <= k < m0 ==> self.hashes@[k] == old(self).hashes@[k],
                forall|k: int| 0 <= k < m0 ==> self.name_offsets@[k] == old(self).name_offsets@[k],
                forall|k: int| 0 <= k < j ==> self.modes@[m0 + k] == all[k].mode,
                forall|k: int| 0 <= k < j ==> self.hashes@[m0 + k] == all[k].hash,
                forall|k: int|
                    0 <= k < j ==> self.name_offsets@[m0 + k] == b0 + cat(names.take(k)).len(),
                self.names_blob@ == old(self).names_blob@ + cat(names.take(j as int)),
                cat(names.take(j as int)).len() <= cat(names).len(),
            decreases n - j,
        {
            proof {
                crate::soa::lemma_cat_take(names, j as int);
                crate::soa::lemma_cat_take(names, j + 1);
            }
            let e = &entries[j];
            self.modes.push(e.mode);
            self.hashes.push(e.hash);
            self.name_offsets.push(self.names_blob.len() as u32);
            self.names_blob.extend_from_slice(e.name.as_str().as_bytes());
            proof {
                assert(names[j as int] == all[j as int].name);
                assert(self.names_blob@ =~= old(self).names_blob@ + cat(names.take(j + 1)));
            }
            j += 1;
        }
        self.name_end.push(self.names_blob.len() as u32);
        self.entry_end.push(self.modes.len() as u32);
        proof {
            assert(names.take(n as int) =~= names);
            assert(self.modes@ =~= old(self).modes@ + crate::tree::tree_modes(all));
            assert(self.hashes@ =~= old(self).hashes@ + crate::tree::tree_hashes(all));
            assert(extended(*old(self), *self, all));
            assert forall|k: int| 0 <= k < all.len() implies valid_utf8(#[trigger] all[k].name) by {
                crate::tree::lemma_entry_name_valid(entries@[k]);
            }
            lemma_extended_view(*old(self), *self, all);
            lemma_extended_wf(*old(self), *self, all);
        }
        id
    }

    /// Stores a tree of `entries`, in their order, and gives it the next id.
    pub fn push(&mut self, entries: &[TreeEntry]) -> (id: TreeId)
        requires
            old(self).wf(),
            old(self).has_room(entry_views(entries@)),
        ensures
            final(self).wf(),
            final(self)@ == old(self)@.push(entry_views(entries@)),
            final(self).used() == old(self).used().with(entry_views(entries@)),
            id.index() == old(self)@.len(),
    {
        self.extend(entries)
    }

    /// Whether a tree of `entries` can still be stored.
    pub fn can_extend(&self, entries: &[TreeEntry]) -> (r: bool)
        requires
            self.wf(),
        ensures
            r == self.has_room(entry_views(entries@)),
    {
        if self.entry_start.len() >= u32::MAX as usize {
            return false;
        }
        if entries.len() > u32::MAX as usize - self.modes.len() {
            return false;
        }
        let ghost names = tree_names(entry_views(entries@));
        let limit = u32::MAX as usize - self.names_blob.len();
        let n = entries.len();
        let mut total: usize = 0;
        let mut j: usize = 0;
        assert(names.take(0) =~= Seq::<Seq<u8>>::empty());
        while j < n
            invariant
                j <= n,
                n == entries@.len(),
                names == tree_names(entry_views(entries@)),
                total == cat(names.take(j as int)).len(),
                total <= limit,
                limit == u32::MAX - self.names_blob@.len(),
                self.entry_start@.len() < u32::MAX,
                self.modes@.len() + n <= u32::MAX,
            decreases n - j,
        {
            proof {
                crate::soa::lemma_cat_take(names, j as int);
                crate::soa::lemma_cat_take(names, j + 1);
                assert(names[j as int] == entries@[j as int]@.name);
            }
            let len = entries[j].name.as_str().as_bytes().len();
            if len > limit - total {
                return false;
            }
            total = total + len;
            j += 1;
        }
        assert(names.take(n as int) =~= names);
        true
    }

    /// The number of entries of tree `id`.
    pub fn entry_count(&self, id: TreeId) -> (n: usize)
        requires
            self.wf(),
            id.index() < self@.len(),
        ensures
            n == self@[id.index() as int].len(),
    {
        let i = id.index();
        assert(self.entry_start@[i as int] <= self.entry_end@[i as int]);
        (self.entry_end[i] - self.entry_start[i]) as usize
    }

    /// Entry `j` of tree `id`.
    pub fn get_entry(&self, id: TreeId, j: usize) -> (e: TreeEntry)
        requires
            self.wf(),
            id.index() < self@.len(),
            j < self@[id.index() as int].len(),
        ensures
            e@ == self@[id.index() as int][j as int],
    {
        let i = id.index();
        assert(self.entry_start@[i as int] <= self.entry_end@[i as int] <= self.modes@.len());
        let base = self.entry_start[i] as usize;
        let idx = base + j;
        let name = self.name_at(i, idx);
        TreeEntry { hash: self.hashes[idx], mode: self.modes[idx], name: name.to_owned() }
    }

    /// The name of entry `idx` of the flat arrays, which belongs to tree
    /// `i`.
    fn name_at(&self, i: usize, idx: usize) -> (s: &str)
        requires
            self.wf(),
            i < self.entry_start@.len(),
            self.entry_start@[i as int] <= idx < self.entry_end@[i as int],
        ensures
            s.spec_bytes() == self.entry_at(i as int, idx as int).name,
    {
        assert(self.entry_start@[i as int] <= self.entry_end@[i as int] <= self.modes@.len());
        assert(self.name_offsets@[idx as int] <= self.name_stop(i as int, idx as int)
            <= self.names_blob@.len());
        assert(valid_utf8(self.entry_at(i as int, idx as int).name));
        let start = self.name_offsets[idx] as usize;
        let end = if idx + 1 < self.entry_end[i] as usize {
            self.name_offsets[idx + 1] as usize
        } else {
            self.name_end[i] as usize
        };
        let bytes = slice_subrange(self.names_blob.as_slice(), start, end);
        str_from_utf8_data_shouldve_been_valid_or_we_got_hacked(bytes)
    }

    /// The hash of the first entry of tree `id` called `name`, if there is
    /// one.
    pub fn find_entry(&self, id: TreeId, name: &str) -> (r: Option<crate::hash::Hash>)
        requires
            self.wf(),
            id.index() < self@.len(),
        ensures
            found_in(self@[id.index() as int], name.spec_bytes(), r),
    {
        let n = self.entry_count(id);
        let i = id.index();
        assert(self.entry_start@[i as int] <= self.entry_end@[i as int] <= self.modes@.len());
        let base = self.entry_start[i] as usize;
        let ghost es = self@[i as int];
        let mut j: usize = 0;
        while j < n
            invariant
                j <= n,
                self.wf(),
                i < self.entry_start@.len(),
                i == id.index(),
                es == self@[i as int],
                n == es.len(),
                base == self.entry_start@[i as int],
                base + n == self.entry_end@[i as int],
                forall|k: int| 0 <= k < j ==> (#[trigger] es[k]).name != name.spec_bytes(),
            decreases n - j,
        {
            let s = self.name_at(i, base + j);
            assert(es[j as int] == self.entry_at(i as int, base + j));
            if bytes_eq(s.as_bytes(), name.as_bytes()) {
                let h = self.hashes[base + j];
                assert(is_first_named(es, name.spec_bytes(), j as int) && es[j as int].hash == h);
                return Some(h);
            }
            j += 1;
        }
        None
    }
}

/// Commits, their parents back to back in one array and their strings in
/// one buffer.
pub struct CommitStore {
    pub tree: Vec<crate::hash::Hash>,
    pub parent_count: Vec<u32>,
    pub parent_start: Vec<u32>,
    pub parents: Vec<crate::hash::Hash>,
    pub timestamp: Vec<i64>,
    pub author_start: Vec<u32>,
    pub author_len: Vec<u32>,
    pub message_start: Vec<u32>,
    pub message_len: Vec<u32>,
    pub strings: Vec<u8>,
}

impl View for CommitStore {
    type V = Seq<CommitView>;

    open spec fn view(&self) -> Seq<CommitView> {
        Seq::new(self.tree@.len(), |i: int| self.commit_at(i))
    }
}

impl CommitStore {
    /// Commit `i`.
    pub open spec fn commit_at(&self, i: int) -> CommitView {
        CommitView {
            tree: self.tree@[i],
            parents: self.parents@.subrange(
                self.parent_start@[i] as int,
                self.parent_start@[i] + self.parent_count@[i],
            ),
            timestamp: self.timestamp@[i],
            author: self.strings@.subrange(
                self.author_start@[i] as int,
                self.author_start@[i] + self.author_len@[i],
            ),
            message: self.strings@.subrange(
                self.message_start@[i] as int,
                self.message_start@[i] + self.message_len@[i],
            ),
        }
    }

    /// The arrays agree in length, the parents and strings of every commit
    /// lie within their buffers, the strings are well-formed UTF-8, and all
    /// of it stays within what a `u32` can say.
    pub open spec fn wf(&self) -> bool {
        let n = self.tree@.len();
        &&& n <= u32::MAX
        &&& self.parent_count@.len() == n
        &&& self.parent_start@.len() == n
        &&& self.timestamp@.len() == n
        &&& self.author_start@.len() == n
        &&& self.author_len@.len() == n
        &&& self.message_start@.len() == n
        &&& self.message_len@.len() == n
        &&& self.parents@.len() <= u32::MAX
        &&& self.strings@.len() <= u32::MAX
        &&& forall|i: int|
            0 <= i < n ==> {
                &&& (#[trigger] self.parent_start@[i]) + self.parent_count@[i]
                    <= self.parents@.len()
                &&& self.author_start@[i] + self.author_len@[i] <= self.strings@.len()
                &&& self.message_start@[i] + self.message_len@[i] <= self.strings@.len()
            }
        &&& forall|i: int|
            0 <= i < n ==> valid_utf8((#[trigger] self.commit_at(i)).author) && valid_utf8(
                self.commit_at(i).message,
            )
    }

    /// Whether a commit with this many parents and string bytes can still
    /// be pushed.
    pub open spec fn has_room(&self, parents: nat, author: nat, message: nat) -> bool {
        &&& self.tree@.len() < u32::MAX
        &&& self.parents@.len() + parents <= u32::MAX
        &&& self.strings@.len() + author + message <= u32::MAX
    }

    /// A stored commit can be encoded.
    pub proof fn lemma_commit_ok(&self, i: int)
        requires
            self.wf(),
            0 <= i < self@.len(),
        ensures
            crate::commit::commit_ok(self@[i]),
    {
        assert(self.parent_start@[i] + self.parent_count@[i] <= self.parents@.len());
        assert(valid_utf8(self.commit_at(i).author));
    }

    /// Whether the store is new: it holds no commits, no parents and no
    /// strings.
    pub open spec fn unused(&self) -> bool {
        self@ == Seq::<CommitView>::empty() && self.parents@.len() == 0 && self.strings@.len()
            == 0
    }

    /// A store with no commits, no parents and no strings: every commit
    /// whose parents and strings a `u32` can count has room in it.
    pub fn new() -> (s: Self)
        ensures
            s.wf(),
            s.unused(),
            s@ == Seq::<CommitView>::empty(),
            s.parents@.len() == 0,
            s.strings@.len() == 0,
            forall|p: nat, a: nat, m: nat|
                #[trigger] s.has_room(p, a, m) == (p <= u32::MAX && a + m <= u32::MAX),
    {
        let s = CommitStore {
            tree: Vec::new(),
            parent_count: Vec::new(),
            parent_start: Vec::new(),
            parents: Vec::new(),
            timestamp: Vec::new(),
            author_start: Vec::new(),
            author_len: Vec::new(),
            message_start: Vec::new(),
            message_len: Vec::new(),
            strings: Vec::new(),
        };
        assert(s@ =~= Seq::<CommitView>::empty());
        s
    }

    /// Whether a commit with these parents and strings can still be pushed.
    pub fn can_push(&self, parents: usize, author: &str, message: &str) -> (r: bool)
        requires
            self.wf(),
        ensures
            r == self.has_room(
                parents as nat,
                author.spec_bytes().len(),
                message.spec_bytes().len(),
            ),
    {
        if self.tree.len() >= u32::MAX as usize {
            return false;
        }
        if parents > u32::MAX as usize - self.parents.len() {
            return false;
        }
        let free = u32::MAX as usize - self.strings.len();
        let a = author.as_bytes().len();
        if a > free {
            return false;
        }
        message.as_bytes().len() <= free - a
    }

    /// Stores a commit and gives it the next id.
    pub fn push(
        &mut self,
        tree: crate::hash::Hash,
        parents: &[crate::hash::Hash],
        timestamp: i64,
        author: &str,
        message: &str,
    ) -> (id: CommitId)
        requires
            old(self).wf(),
            old(self).has_room(
                parents@.len(),
                author.spec_bytes().len(),
                message.spec_bytes().len(),
            ),
        ensures
            final(self).wf(),
            final(self)@ == old(self)@.push(
                CommitView {
                    tree,
                    parents: parents@,
                    timestamp,
                    author: author.spec_bytes(),
                    message: message.spec_bytes(),
                },
            ),
            final(self).parents@ == old(self).parents@ + parents@,
            final(self).strings@ == old(self).strings@ + author.spec_bytes() + message.spec_bytes(),
            id.index() == old(self)@.len(),
    {
        let ghost c = CommitView {
            tree,
            parents: parents@,
            timestamp,
            author: author.spec_bytes(),
            message: message.spec_bytes(),
        };
        let id = CommitId::new(self.tree.len());
        self.tree.push(tree);
        self.parent_count.push(parents.len() as u32);
        self.parent_start.push(self.parents.len() as u32);
        let p = parents.len();
        let mut k: usize = 0;
        while k < p
            invariant
                k <= p,
                p == parents@.len(),
                self.parents@ == old(self).parents@ + parents@.take(k as int),
                self.tree@ == old(self).tree@.push(tree),
                self.parent_count@ == old(self).parent_count@.push(p as u32),
                self.parent_start@ == old(self).parent_start@.push(old(self).parents@.len() as u32),
                self.timestamp@ == old(self).timestamp@,
                self.author_start@ == old(self).author_start@,
                self.author_len@ == old(self).author_len@,
                self.message_start@ == old(self).message_start@,
                self.message_len@ == old(self).message_len@,
                self.strings@ == old(self).strings@,
            decreases p - k,
        {
            self.parents.push(parents[k]);
            assert(self.parents@ =~= old(self).parents@ + parents@.take(k + 1));
            k += 1;
        }
        assert(parents@.take(p as int) =~= parents@);
        self.timestamp.push(timestamp);
        self.author_start.push(self.strings.len() as u32);
        self.strings.extend_from_slice(author.as_bytes());
        self.author_len.push(author.as_bytes().len() as u32);
        self.message_start.push(self.strings.len() as u32);
        self.strings.extend_from_slice(message.as_bytes());
        self.message_len.push(message.as_bytes().len() as u32);
        proof {
            assert(self.strings@ =~= old(self).strings@ + author.spec_bytes()
                + message.spec_bytes());
            encode_utf8_valid_utf8(author@);
            encode_utf8_valid_utf8(message@);
            lemma_commit_pushed(*old(self), *self, c);
        }
        id
    }

    /// Stores the commit of an owned payload and gives it the next id.
    pub fn push_payload_owned(&mut self, p: &crate::commit::CommitPayloadOwned) -> (id: CommitId)
        requires
            old(self).wf(),
            old(self).has_room(p@.parents.len(), p@.author.len(), p@.message.len()),
        ensures
            final(self).wf(),
            final(self)@ == old(self)@.push(p@),
            final(self).parents@ == old(self).parents@ + p@.parents,
            final(self).strings@ == old(self).strings@ + p@.author + p@.message,
            id.index() == old(self)@.len(),
    {
        self.push(p.tree, p.parents.as_slice(), p.timestamp, p.author.as_str(), p.message.as_str())
    }

    /// The tree of commit `id`.
    pub fn get_tree(&self, id: CommitId) -> (h: crate::hash::Hash)
        requires
            self.wf(),
            id.index() < self@.len(),
        ensures
            h == self@[id.index() as int].tree,
    {
        self.tree[id.index()]
    }

    /// The parents of commit `id`, in order.
    pub fn get_parents(&self, id: CommitId) -> (r: &[crate::hash::Hash])
        requires
            self.wf(),
            id.index() < self@.len(),
        ensures
            r@ == self@[id.index() as int].parents,
    {
        let i = id.index();
        assert(self.parent_start@[i as int] + self.parent_count@[i as int] <= self.parents@.len());
        let start = self.parent_start[i] as usize;
        let count = self.parent_count[i] as usize;
        slice_subrange(self.parents.as_slice(), start, start + count)
    }

    /// The timestamp of commit `id`.
    pub fn get_timestamp(&self, id: CommitId) -> (t: i64)
        requires
            self.wf(),
            id.index() < self@.len(),
        ensures
            t == self@[id.index() as int].timestamp,
    {
        self.timestamp[id.index()]
    }

    /// The author of commit `id`.
    pub fn get_author(&self, id: CommitId) -> (s: &str)
        requires
            self.wf(),
            id.index() < self@.len(),
        ensures
            s.spec_bytes() == self@[id.index() as int].author,
    {
        let i = id.index();
        assert(self.parent_start@[i as int] + self.parent_count@[i as int] <= self.parents@.len());
        assert(valid_utf8(self.commit_at(i as int).author));
        let start = self.author_start[i] as usize;
        let len = self.author_len[i] as usize;
        str_from_utf8_data_shouldve_been_valid_or_we_got_hacked(
            slice_subrange(self.strings.as_slice(), start, start + len),
        )
    }

    /// The message of commit `id`.
    pub fn get_message(&self, id: CommitId) -> (s: &str)
        requires
            self.wf(),
            id.index() < self@.len(),
        ensures
            s.spec_bytes() == self@[id.index() as int].message,
    {
        let i = id.index();
        assert(self.parent_start@[i as int] + self.parent_count@[i as int] <= self.parents@.len());
        assert(valid_utf8(self.commit_at(i as int).author));
        let start = self.message_start[i] as usize;
        let len = self.message_len[i] as usize;
        str_from_utf8_data_shouldve_been_valid_or_we_got_hacked(
            slice_subrange(self.strings.as_slice(), start, start + len),
        )
    }
}

/// `new` is `old` with the commit `c` pushed behind what `old` holds.
pub open spec fn commit_pushed(old: CommitStore, new: CommitStore, c: CommitView) -> bool {
    let p0 = old.parents@.len();
    let s0 = old.strings@.len();
    &&& new.tree@ == old.tree@.push(c.tree)
    &&& new.parent_count@ == old.parent_count@.push(c.parents.len() as u32)
    &&& new.parent_start@ == old.parent_start@.push(p0 as u32)
    &&& new.parents@ == old.parents@ + c.parents
    &&& new.timestamp@ == old.timestamp@.push(c.timestamp)
    &&& new.author_start@ == old.author_start@.push(s0 as u32)
    &&& new.author_len@ == old.author_len@.push(c.author.len() as u32)
    &&& new.message_start@ == old.message_start@.push((s0 + c.author.len()) as u32)
    &&& new.message_len@ == old.message_len@.push(c.message.len() as u32)
    &&& new.strings@ == old.strings@ + c.author + c.message
}

/// A store with a commit pushed is well-formed and holds the commits that
/// were there, then the new one.
pub proof fn lemma_commit_pushed(old: CommitStore, new: CommitStore, c: CommitView)
    requires
        old.wf(),
        old.has_room(c.parents.len(), c.author.len(), c.message.len()),
        valid_utf8(c.author),
        valid_utf8(c.message),
        commit_pushed(old, new, c),
    ensures
        new.wf(),
        new@ == old@.push(c),
{
    let n0 = old.tree@.len() as int;
    assert forall|i: int| 0 <= i < new@.len() implies new.commit_at(i) == old@.push(c)[i] by {
        if i < n0 {
            assert(old.parent_start@[i] + old.parent_count@[i] <= old.parents@.len());
            assert(new.commit_at(i).parents =~= old.commit_at(i).parents);
            assert(new.commit_at(i).author =~= old.commit_at(i).author);
            assert(new.commit_at(i).message =~= old.commit_at(i).message);
        } else {
            assert(new.commit_at(i).parents =~= c.parents);
            assert(new.commit_at(i).author =~= c.author);
            assert(new.commit_at(i).message =~= c.message);
        }
    }
    assert(new@ =~= old@.push(c));
    assert forall|i: int| 0 <= i < new.tree@.len() implies {
        &&& (#[trigger] new.parent_start@[i]) + new.parent_count@[i] <= new.parents@.len()
        &&& new.author_start@[i] + new.author_len@[i] <= new.strings@.len()
        &&& new.message_start@[i] + new.message_len@[i] <= new.strings@.len()
    } by {
        if i < n0 {
            assert(old.parent_start@[i] + old.parent_count@[i] <= old.parents@.len());
        }
    }
    assert forall|i: int| 0 <= i < new.tree@.len() implies valid_utf8(
        (#[trigger] new.commit_at(i)).author,
    ) && valid_utf8(new.commit_at(i).message) by {
        if i < n0 {
            assert(new.commit_at(i) == old.commit_at(i));
            assert(valid_utf8(old.commit_at(i).author));
        }
    }
}

/// The three stores of a repository.
pub struct Stores {
    pub blob: BlobStore,
    pub tree: TreeStore,
    pub commit: CommitStore,
}

/// What the three stores hold.
pub struct StoresView {
    pub blobs: Seq<Seq<u8>>,
    pub trees: Seq<Seq<TreeEntryView>>,
    pub commits: Seq<CommitView>,
}

impl StoresView {
    /// Whether the stores hold an object under this handle.
    pub open spec fn holds(self, obj: Object) -> bool {
        match obj {
            Object::Blob(id) => id.index() < self.blobs.len(),
            Object::Tree(id) => id.index() < self.trees.len(),
            Object::Commit(id) => id.index() < self.commits.len(),
        }
    }

    /// The object under a handle.
    pub open spec fn object(self, obj: Object) -> ObjectView {
        match obj {
            Object::Blob(id) => ObjectView::Blob(self.blobs[id.index() as int]),
            Object::Tree(id) => ObjectView::Tree(self.trees[id.index() as int]),
            Object::Commit(id) => ObjectView::Commit(self.commits[id.index() as int]),
        }
    }

    /// `self` with the object `o` pushed into the store of its kind, where
    /// it got the handle `obj`.
    pub open spec fn pushed(self, o: ObjectView, obj: Object, new: StoresView) -> bool {
        match o {
            ObjectView::Blob(d) => obj == Object::Blob(BlobId(self.blobs.len() as u32)) && new
                == (StoresView { blobs: self.blobs.push(d), ..self }),
            ObjectView::Tree(es) => obj == Object::Tree(TreeId(self.trees.len() as u32)) && new
                == (StoresView { trees: self.trees.push(es), ..self }),
            ObjectView::Commit(c) => obj == Object::Commit(CommitId(self.commits.len() as u32))
                && new == (StoresView { commits: self.commits.push(c), ..self }),
        }
    }
}

/// What three stores hold.
pub open spec fn stores_view(blob: BlobStore, tree: TreeStore, commit: CommitStore) -> StoresView {
    StoresView { blobs: blob@, trees: tree@, commits: commit@ }
}

/// Whether the object `o` can still be pushed into the store of its kind.
pub open spec fn stores_room(
    blob: BlobStore,
    tree: TreeStore,
    commit: CommitStore,
    o: ObjectView,
) -> bool {
    match o {
        ObjectView::Blob(d) => blob.has_room(d.len()),
        ObjectView::Tree(es) => tree.has_room(es),
        ObjectView::Commit(c) => commit.has_room(c.parents.len(), c.author.len(), c.message.len()),
    }
}

/// What decoding `data` into stores that held `old` gives: the handle of
/// the object whose record `data` is, pushed into the store of its kind;
/// `CorruptObjectDatabase` where `data` is the record of no object; and
/// `StoreFull` where the store of its kind has no room for it. On an error
/// the stores are as they were.
pub open spec fn decoded_into(
    data: Seq<u8>,
    blob: BlobStore,
    tree: TreeStore,
    commit: CommitStore,
    new: StoresView,
    r: Result<Object, Error>,
) -> bool {
    let old = stores_view(blob, tree, commit);
    match r {
        Ok(obj) => exists|o: ObjectView|
            #![trigger record(o)]
            object_ok(o) && record(o) == data && stores_room(blob, tree, commit, o) && old.pushed(
                o,
                obj,
                new,
            ),
        Err(e) => new == old && if e == Error::CorruptObjectDatabase {
            forall|o: ObjectView| object_ok(o) ==> #[trigger] record(o) != data
        } else {
            e == Error::StoreFull && exists|o: ObjectView|
                #![trigger record(o)]
                object_ok(o) && record(o) == data && !stores_room(blob, tree, commit, o)
        },
    }
}

/// Which stores a decoding leaves as they were: all three where it fails,
/// and all but the store of the object's kind where it succeeds.
pub open spec fn kept_but(
    blob: BlobStore,
    tree: TreeStore,
    commit: CommitStore,
    new_blob: BlobStore,
    new_tree: TreeStore,
    new_commit: CommitStore,
    r: Result<Object, Error>,
) -> bool {
    &&& !(r matches Ok(Object::Blob(_))) ==> new_blob == blob
    &&& !(r matches Ok(Object::Tree(_))) ==> new_tree == tree
    &&& !(r matches Ok(Object::Commit(_))) ==> new_commit == commit
}

/// Replaces the content of `buf` by the record of blob `id`, and returns
/// the hash of that record.
pub fn blob_encode_and_hash(store: &BlobStore, id: BlobId, buf: &mut Vec<u8>) -> (h:
    crate::hash::Hash)
    requires
        store.wf(),
        id.index() < store@.len(),
    ensures
        final(buf)@ == crate::object::blob_record(store@[id.index() as int]),
        h == crate::hash::blake3_digest(final(buf)@),
{
    crate::object::encode_blob_and_hash(store.get(id), buf)
}

/// Replaces the content of `buf` by the record of the object under `obj`.
pub fn encode_object_into(
    obj: Object,
    blob: &BlobStore,
    tree: &TreeStore,
    commit: &CommitStore,
    buf: &mut Vec<u8>,
)
    requires
        blob.wf(),
        tree.wf(),
        commit.wf(),
        stores_view(*blob, *tree, *commit).holds(obj),
    ensures
        final(buf)@ == record(stores_view(*blob, *tree, *commit).object(obj)),
        object_ok(stores_view(*blob, *tree, *commit).object(obj)),
{
    match obj {
        Object::Blob(id) => {
            crate::object::encode_blob_into(blob.get(id), buf);
        },
        Object::Tree(id) => {
            crate::object::write_header(ObjectTag::Tree, buf);
            let p = crate::tree::TreePayloadRef::new(tree, id).payload();
            proof {
                tree.lemma_tree_ok(id.index() as int);
            }
            let mut w = WriteCursor::new(buf);
            p.payload_view().encode(&mut w);
            assert(w.written() =~= crate::object::tree_record(tree@[id.index() as int]));
        },
        Object::Commit(id) => {
            crate::object::write_header(ObjectTag::Commit, buf);
            let v = crate::commit::CommitPayloadRef::new(commit, id).payload_view();
            let mut w = WriteCursor::new(buf);
            v.encode(&mut w);
            assert(w.written() =~= crate::object::commit_record(commit@[id.index() as int]));
        },
    }
}

/// The hash of the object under `obj`: the digest of its record.
pub fn object_hash(obj: Object, blob: &BlobStore, tree: &TreeStore, commit: &CommitStore) -> (h:
    crate::hash::Hash)
    requires
        blob.wf(),
        tree.wf(),
        commit.wf(),
        stores_view(*blob, *tree, *commit).holds(obj),
    ensures
        h == crate::hash::blake3_digest(record(stores_view(*blob, *tree, *commit).object(obj))),
{
    let mut buf: Vec<u8> = Vec::new();
    encode_object_into(obj, blob, tree, commit, &mut buf);
    crate::hash::hash_bytes(buf.as_slice())
}

/// Decodes a record and pushes the object into the store of its kind.
pub fn decode_into_stores(
    data: &[u8],
    blob: &mut BlobStore,
    tree: &mut TreeStore,
    commit: &mut CommitStore,
) -> (r: Result<Object, Error>)
    requires
        old(blob).wf(),
        old(tree).wf(),
        old(commit).wf(),
    ensures
        final(blob).wf(),
        final(tree).wf(),
        final(commit).wf(),
        decoded_into(
            data@,
            *old(blob),
            *old(tree),
            *old(commit),
            stores_view(*final(blob), *final(tree), *final(commit)),
            r,
        ),
        kept_but(*old(blob), *old(tree), *old(commit), *final(blob), *final(tree), *final(commit), r),
{
    let (tag, payload) = match crate::object::read_header(data) {
        Ok(x) => x,
        Err(e) => {
            proof {
                lemma_unframed(data@);
            }
            return Err(e);
        },
    };
    match tag {
        ObjectTag::Blob => {
            match crate::object::decode_blob_payload(payload) {
                Ok(d) => {
                    if !blob.can_push(d.len()) {
                        assert(record(ObjectView::Blob(d@)) == data@);
                        return Err(Error::StoreFull);
                    }
                    let id = blob.push(d);
                    assert(record(ObjectView::Blob(d@)) == data@);
                    assert(stores_view(*old(blob), *old(tree), *old(commit)).pushed(
                        ObjectView::Blob(d@),
                        Object::Blob(id),
                        stores_view(*blob, *tree, *commit),
                    ));
                    Ok(Object::Blob(id))
                },
                Err(e) => {
                    proof {
                        lemma_bad_payload(data@, tag, payload@);
                    }
                    Err(e)
                },
            }
        },
        ObjectTag::Tree => {
            match crate::tree::Tree::decode(payload) {
                Ok(t) => {
                    let entries = t.to_entries();
                    proof {
                        t.lemma_columns();
                        assert(record(ObjectView::Tree(t@)) == data@);
                    }
                    if !tree.can_extend(entries.as_slice()) {
                        return Err(Error::StoreFull);
                    }
                    let id = tree.extend(entries.as_slice());
                    assert(stores_view(*old(blob), *old(tree), *old(commit)).pushed(
                        ObjectView::Tree(t@),
                        Object::Tree(id),
                        stores_view(*blob, *tree, *commit),
                    ));
                    Ok(Object::Tree(id))
                },
                Err(e) => {
                    proof {
                        lemma_bad_payload(data@, tag, payload@);
                    }
                    Err(e)
                },
            }
        },
        ObjectTag::Commit => {
            match crate::commit::decode_commit(payload) {
                Ok(p) => {
                    assert(record(ObjectView::Commit(p@)) == data@);
                    if !commit.can_push(p.parents.len(), p.author.as_str(), p.message.as_str()) {
                        return Err(Error::StoreFull);
                    }
                    let id = commit.push_payload_owned(&p);
                    assert(stores_view(*old(blob), *old(tree), *old(commit)).pushed(
                        ObjectView::Commit(p@),
                        Object::Commit(id),
                        stores_view(*blob, *tree, *commit),
                    ));
                    Ok(Object::Commit(id))
                },
                Err(e) => {
                    proof {
                        lemma_bad_payload(data@, tag, payload@);
                    }
                    Err(e)
                },
            }
        },
    }
}

/// Bytes that are framed as no kind are the record of no object.
pub proof fn lemma_unframed(data: Seq<u8>)
    requires
        forall|tag: ObjectTag, p: Seq<u8>| data != #[trigger] crate::object::framed(tag, p),
    ensures
        forall|o: ObjectView| object_ok(o) ==> #[trigger] record(o) != data,
{
    assert forall|o: ObjectView| object_ok(o) implies #[trigger] record(o) != data by {
        match o {
            ObjectView::Blob(d) => {
                assert(record(o) == crate::object::framed(
                    ObjectTag::Blob,
                    crate::object::blob_payload(d),
                ));
            },
            ObjectView::Tree(es) => {
                assert(record(o) == crate::object::framed(
                    ObjectTag::Tree,
                    crate::tree::tree_payload(es),
                ));
            },
            ObjectView::Commit(c) => {
                assert(record(o) == crate::object::framed(
                    ObjectTag::Commit,
                    crate::commit::commit_payload(c),
                ));
            },
        }
    }
}

/// Bytes framed as one kind, with a payload that is the payload of no
/// object of that kind, are the record of no object.
pub proof fn lemma_bad_payload(data: Seq<u8>, tag: ObjectTag, payload: Seq<u8>)
    requires
        data == crate::object::framed(tag, payload),
        tag == ObjectTag::Blob ==> forall|d: Seq<u8>|
            d.len() <= u64::MAX ==> payload != #[trigger] crate::object::blob_payload(d),
        tag == ObjectTag::Tree ==> forall|es: Seq<TreeEntryView>|
            crate::tree::tree_ok(es) ==> payload != #[trigger] crate::tree::tree_payload(es),
        tag == ObjectTag::Commit ==> forall|c: CommitView|
            crate::commit::commit_ok(c) ==> payload != #[trigger] crate::commit::commit_payload(c),
    ensures
        forall|o: ObjectView| object_ok(o) ==> #[trigger] record(o) != data,
{
    assert forall|o: ObjectView| object_ok(o) implies #[trigger] record(o) != data by {
        if record(o) == data {
            match o {
                ObjectView::Blob(d) => {
                    crate::object::lemma_framed_injective(
                        tag,
                        payload,
                        ObjectTag::Blob,
                        crate::object::blob_payload(d),
                    );
                },
                ObjectView::Tree(es) => {
                    crate::object::lemma_framed_injective(
                        tag,
                        payload,
                        ObjectTag::Tree,
                        crate::tree::tree_payload(es),
                    );
                },
                ObjectView::Commit(c) => {
                    crate::object::lemma_framed_injective(
                        tag,
                        payload,
                        ObjectTag::Commit,
                        crate::commit::commit_payload(c),
                    );
                },
            }
        }
    }
}

impl View for Stores {
    type V = StoresView;

    open spec fn view(&self) -> StoresView {
        stores_view(self.blob, self.tree, self.commit)
    }
}

impl Stores {
    /// Each of the three stores is well-formed.
    pub open spec fn wf(&self) -> bool {
        self.blob.wf() && self.tree.wf() && self.commit.wf()
    }

    /// Whether the stores are new: each holds nothing, and nothing of it
    /// is used.
    pub open spec fn unused(&self) -> bool {
        self.blob.unused() && self.tree.unused() && self.commit.unused()
    }

    /// Three empty stores, of which nothing is used.
    pub fn new() -> (s: Self)
        ensures
            s.wf(),
            s.unused(),
            s@.blobs.len() == 0,
            s@.trees.len() == 0,
            s@.commits.len() == 0,
    {
        Stores { blob: BlobStore::new(), tree: TreeStore::new(), commit: CommitStore::new() }
    }

    /// Replaces the content of `buf` by the record of the object under
    /// `obj`.
    pub fn encode_object_into(&self, obj: Object, buf: &mut Vec<u8>)
        requires
            self.wf(),
            self@.holds(obj),
        ensures
            final(buf)@ == record(self@.object(obj)),
            object_ok(self@.object(obj)),
    {
        encode_object_into(obj, &self.blob, &self.tree, &self.commit, buf)
    }

    /// Decodes a record and pushes the object into the store of its kind.
    pub fn decode_and_push_object(&mut self, data: &[u8]) -> (r: Result<Object, Error>)
        requires
            old(self).wf(),
        ensures
            final(self).wf(),
            decoded_into(data@, old(self).blob, old(self).tree, old(self).commit, final(self)@, r),
            kept_but(
                old(self).blob,
                old(self).tree,
                old(self).commit,
                final(self).blob,
                final(self).tree,
                final(self).commit,
                r,
            ),
    {
        decode_into_stores(data, &mut self.blob, &mut self.tree, &mut self.commit)
    }
}

impl Default for BlobStore {
    fn default() -> (s: Self)
        ensures
            s.wf(),
            s.unused(),
            s@ == Seq::<Seq<u8>>::empty(),
    {
        BlobStore::new()
    }
}

impl Default for TreeStore {
    fn default() -> (s: Self)
        ensures
            s.wf(),
            s.unused(),
            s@ == Seq::<Seq<TreeEntryView>>::empty(),
    {
        TreeStore::new()
    }
}

impl Default for CommitStore {
    fn default() -> (s: Self)
        ensures
            s.wf(),
            s.unused(),
            s@ == Seq::<CommitView>::empty(),
    {
        CommitStore::new()
    }
}

impl Default for Stores {
    fn default() -> (s: Self)
        ensures
            s.wf(),
            s.unused(),
            s@.blobs.len() == 0,
            s@.trees.len() == 0,
            s@.commits.len() == 0,
    {
        Stores::new()
    }
}

} // verus!
