//! The flat view of a tree: every blob path under a root, with its hash,
//! sorted for binary search; and the buckets into which the status of a
//! working tree falls.

use crate::soa::{
    lemma_packed_push, packed_at, packed_get, packed_ok, packed_utf8, unpack,
};
use crate::sort::{is_sorted_order, key_le, lemma_sorted_order_complete, sort_by_path};
use crate::util::{
    bytes_eq, bytes_lt, lemma_lex_lt_irreflexive, lemma_lex_lt_total, lemma_lex_lt_transitive,
    lex_le, lex_lt, str_from_utf8_data_shouldve_been_valid_or_we_got_hacked,
};
use crate::build_tree::SLASH;
use crate::ignore::Ignore;
use crate::index::{index_paths, FileMeta, Index, IndexEntryView};
use crate::error::Error;
use crate::object::{framed, tree_record, ObjectTag, ObjectView, MODE_DIR};
use crate::repository::Repository;
use crate::storage::MogStorage;
use crate::tree::{entry_views, tree_ok, TreeEntry, TreeEntryView};
use crate::util::checked_str;
use vstd::prelude::*;
use vstd::string::StringSliceAdditionalSpecFns;
use vstd::utf8::{encode_utf8_valid_utf8, valid_utf8};

verus! {

/// A path with the hash of the blob that stands there.
pub type FlatEntry = (Seq<u8>, crate::hash::Hash);

/// Collects `(path, hash)` pairs for a flat tree.
pub struct FlatTreeBuilder {
    path_blob: Vec<u8>,
    path_offsets: Vec<u32>,
    hashes: Vec<crate::hash::Hash>,
}

impl FlatTreeBuilder {
    /// The pairs pushed so far, in the order in which they came.
    pub closed spec fn entries(&self) -> Seq<FlatEntry> {
        Seq::new(
            self.hashes@.len(),
            |i: int| (packed_at(self.path_offsets@, self.path_blob@, i), self.hashes@[i]),
        )
    }

    /// The paths are a packing of well-formed strings, one per hash.
    pub closed spec fn wf(&self) -> bool {
        &&& self.path_offsets@.len() == self.hashes@.len()
        &&& packed_ok(self.path_offsets@, self.path_blob@)
        &&& packed_utf8(self.path_offsets@, self.path_blob@)
    }

    /// The number of path bytes pushed so far.
    pub closed spec fn path_bytes(&self) -> nat {
        self.path_blob@.len()
    }

    /// Whether a path of `n` bytes can still be pushed: the paths together
    /// must stay within what a `u32` can say.
    pub open spec fn has_room(&self, n: nat) -> bool {
        self.path_bytes() + n <= u32::MAX
    }

    /// A builder with no pairs.
    pub fn new() -> (b: Self)
        ensures
            b.wf(),
            b.entries() == Seq::<FlatEntry>::empty(),
            b.path_bytes() == 0,
    {
        let b = Self { path_blob: Vec::new(), path_offsets: Vec::new(), hashes: Vec::new() };
        assert(b.entries() =~= Seq::<FlatEntry>::empty());
        b
    }

    /// A builder with no pairs, and room set aside for `n`.
    pub fn with_capacity(n: usize) -> (b: Self)
        ensures
            b.wf(),
            b.entries() == Seq::<FlatEntry>::empty(),
            b.path_bytes() == 0,
    {
        let b = Self {
            path_blob: Vec::new(),
            path_offsets: Vec::with_capacity(n),
            hashes: Vec::with_capacity(n),
        };
        assert(b.entries() =~= Seq::<FlatEntry>::empty());
        b
    }

    /// Whether a path of `n` bytes can still be pushed.
    pub fn can_push(&self, n: usize) -> (r: bool)
        requires
            self.wf(),
        ensures
            r == self.has_room(n as nat),
    {
        n <= u32::MAX as usize - self.path_blob.len()
    }

    /// Adds a pair behind those pushed before.
    pub fn push(&mut self, path: &str, hash: crate::hash::Hash)
        requires
            old(self).wf(),
            old(self).has_room(path.spec_bytes().len()),
        ensures
            final(self).wf(),
            final(self).entries() == old(self).entries().push((path.spec_bytes(), hash)),
            final(self).path_bytes() == old(self).path_bytes() + path.spec_bytes().len(),
    {
        proof {
            encode_utf8_valid_utf8(path@);
        }
        self.push_bytes(path.as_bytes(), hash);
    }

    /// Adds a pair whose path is given as well-formed UTF-8 bytes.
    pub fn push_bytes(&mut self, path: &[u8], hash: crate::hash::Hash)
        requires
            old(self).wf(),
            old(self).has_room(path@.len()),
            valid_utf8(path@),
        ensures
            final(self).wf(),
            final(self).entries() == old(self).entries().push((path@, hash)),
            final(self).path_bytes() == old(self).path_bytes() + path@.len(),
    {
        let ghost offs = self.path_offsets@;
        let ghost blob = self.path_blob@;
        proof {
            lemma_packed_push(offs, blob, path@);
        }
        self.path_offsets.push(self.path_blob.len() as u32);
        self.path_blob.extend_from_slice(path);
        self.hashes.push(hash);
        proof {
            assert(self.path_blob@ =~= blob + path@);
            let offs2 = self.path_offsets@;
            let blob2 = self.path_blob@;
            assert forall|i: int| 0 <= i < offs2.len() implies packed_at(offs2, blob2, i) == unpack(
                offs,
                blob,
            ).push(path@)[i] by {
                assert(unpack(offs2, blob2)[i] == packed_at(offs2, blob2, i));
            }
            assert forall|i: int| 0 <= i < offs2.len() implies valid_utf8(
                #[trigger] packed_at(offs2, blob2, i),
            ) by {
                if i < offs.len() {
                    assert(valid_utf8(packed_at(offs, blob, i)));
                }
            }
            assert(self.entries() =~= old(self).entries().push((path@, hash)));
        }
    }

    /// The flat tree of the pairs pushed.
    pub fn build(self) -> (t: SortedFlatTree)
        requires
            self.wf(),
        ensures
            t.wf(),
            t@ == self.entries(),
    {
        let ghost offs = self.path_offsets@;
        let ghost blob = self.path_blob@;
        let ghost e = Seq::<u8>::empty();
        let mut path_offsets = self.path_offsets;
        let path_blob = self.path_blob;
        let hashes = self.hashes;
        proof {
            lemma_packed_push(offs, blob, e);
            assert(blob + e =~= blob);
        }
        path_offsets.push(path_blob.len() as u32);
        proof {
            let offs2 = path_offsets@;
            assert forall|i: int| 0 <= i < offs2.len() implies packed_at(offs2, blob, i) == unpack(
                offs,
                blob,
            ).push(e)[i] by {
                assert(unpack(offs2, blob)[i] == packed_at(offs2, blob, i));
            }
            assert forall|i: int| 0 <= i < offs2.len() implies valid_utf8(
                #[trigger] packed_at(offs2, blob, i),
            ) by {
                if i < offs.len() {
                    assert(valid_utf8(packed_at(offs, blob, i)));
                } else {
                    assert(valid_utf8(e)) by {
                        encode_utf8_valid_utf8(Seq::<char>::empty());
                        assert(vstd::utf8::encode_utf8(Seq::<char>::empty()) =~= e);
                    }
                }
            }
        }
        let sorted_order = sort_by_path(path_offsets.as_slice(), path_blob.as_slice(), hashes.len());
        let t = SortedFlatTree { path_blob, path_offsets, hashes, sorted_order };
        assert(t@ =~= self.entries());
        t
    }
}

impl Default for FlatTreeBuilder {
    fn default() -> (b: Self)
        ensures
            b.wf(),
            b.entries() == Seq::<FlatEntry>::empty(),
    {
        FlatTreeBuilder::new()
    }
}

/// Blob paths with their hashes, and the order in which the paths are
/// sorted.
pub struct SortedFlatTree {
    /// The paths, back to back.
    pub path_blob: Vec<u8>,
    /// The start of path `i` in `path_blob`; one entry more than there are
    /// paths, the last one the length of `path_blob`.
    pub path_offsets: Vec<u32>,
    /// The hash for path `i`.
    pub hashes: Vec<crate::hash::Hash>,
    /// The positions of the paths, in the byte-wise order of the paths.
    pub sorted_order: Vec<usize>,
}

impl View for SortedFlatTree {
    type V = Seq<FlatEntry>;

    open spec fn view(&self) -> Seq<FlatEntry> {
        Seq::new(
            self.hashes@.len(),
            |i: int| (packed_at(self.path_offsets@, self.path_blob@, i), self.hashes@[i]),
        )
    }
}

/// What a lookup of `path` in the pairs `s` gives: the hash of a pair with
/// that path, and nothing only where no pair has it.
pub open spec fn looked_up(s: Seq<FlatEntry>, path: Seq<u8>, r: Option<crate::hash::Hash>) -> bool {
    match r {
        Some(h) => exists|i: int| 0 <= i < s.len() && #[trigger] s[i] == (path, h),
        None => forall|i: int| 0 <= i < s.len() ==> (#[trigger] s[i]).0 != path,
    }
}

impl SortedFlatTree {
    /// The offsets are a packing of well-formed paths with the blob's
    /// length behind them, and `sorted_order` holds every position once,
    /// in the order of the paths.
    pub open spec fn wf(&self) -> bool {
        &&& self.path_offsets@.len() == self.hashes@.len() + 1
        &&& packed_ok(self.path_offsets@, self.path_blob@)
        &&& packed_utf8(self.path_offsets@, self.path_blob@)
        &&& is_sorted_order(
            self.path_offsets@,
            self.path_blob@,
            self.hashes@.len(),
            self.sorted_order@,
        )
    }

    /// A flat tree with no paths.
    pub fn new() -> (t: Self)
        ensures
            t.wf(),
            t@ == Seq::<FlatEntry>::empty(),
    {
        FlatTreeBuilder::new().build()
    }

    /// The number of paths.
    pub fn len(&self) -> (n: usize)
        ensures
            n == self@.len(),
    {
        self.hashes.len()
    }

    /// Whether there is no path.
    pub fn is_empty(&self) -> (r: bool)
        ensures
            r == (self@.len() == 0),
    {
        self.len() == 0
    }

    /// Path `i`, in the order in which the paths were collected.
    pub fn get_path(&self, i: usize) -> (s: &str)
        requires
            self.wf(),
            i < self@.len(),
        ensures
            s.spec_bytes() == self@[i as int].0,
    {
        let bytes = packed_get(self.path_offsets.as_slice(), self.path_blob.as_slice(), i);
        assert(valid_utf8(packed_at(self.path_offsets@, self.path_blob@, i as int)));
        str_from_utf8_data_shouldve_been_valid_or_we_got_hacked(bytes)
    }

    /// Whether no path stands twice.
    pub fn has_distinct_paths(&self) -> (r: bool)
        requires
            self.wf(),
        ensures
            r == distinct_paths(self@),
    {
        let n = self.sorted_order.len();
        let ghost offs = self.path_offsets@;
        let ghost blob = self.path_blob@;
        let ghost order = self.sorted_order@;
        proof {
            vstd::seq_lib::to_multiset_len(order);
            vstd::seq_lib::to_multiset_len(crate::sort::iota(self.hashes@.len()));
        }
        let mut k: usize = 1;
        while k < n
            invariant
                1 <= k,
                n == order.len(),
                n == self@.len(),
                self.wf(),
                offs == self.path_offsets@,
                blob == self.path_blob@,
                order == self.sorted_order@,
                forall|j: int|
                    1 <= j < k && j < n ==> packed_at(offs, blob, order[j - 1] as int)
                        != #[trigger] packed_at(offs, blob, order[j] as int),
            decreases n - k,
        {
            let a = self.sorted_order[k - 1];
            let b = self.sorted_order[k];
            assert(order[k - 1] < n && order[k as int] < n);
            let pa = packed_get(self.path_offsets.as_slice(), self.path_blob.as_slice(), a);
            let pb = packed_get(self.path_offsets.as_slice(), self.path_blob.as_slice(), b);
            if bytes_eq(pa, pb) {
                proof {
                    crate::index::lemma_iota_distinct(n as nat);
                    crate::sort::iota(n as nat).lemma_multiset_has_no_duplicates();
                    order.lemma_multiset_has_no_duplicates_conv();
                    assert(order[k - 1] != order[k as int]);
                    let x = order[k - 1] as int;
                    let y = order[k as int] as int;
                    assert(self@[x].0 == self@[y].0);
                }
                return false;
            }
            k += 1;
        }
        proof {
            assert forall|i: int, j: int| 0 <= i < j < self@.len() implies (#[trigger] self@[i]).0
                != (#[trigger] self@[j]).0 by {
                lemma_sorted_order_complete(offs, blob, n as nat, order, i as usize);
                lemma_sorted_order_complete(offs, blob, n as nat, order, j as usize);
                let a = choose|a: int| 0 <= a < order.len() && order[a] == i as usize;
                let b = choose|b: int| 0 <= b < order.len() && order[b] == j as usize;
                if self@[i].0 == self@[j].0 {
                    if a < b {
                        lemma_run_equal(offs, blob, order, a, b);
                    } else {
                        lemma_run_equal(offs, blob, order, b, a);
                    }
                }
            }
        }
        true
    }

    /// The hash that stands at `path`, by binary search.
    pub fn lookup(&self, path: &str) -> (r: Option<crate::hash::Hash>)
        requires
            self.wf(),
        ensures
            looked_up(self@, path.spec_bytes(), r),
    {
        self.lookup_bytes(path.as_bytes())
    }

    /// The hash that stands at the path with these bytes, by binary search.
    pub fn lookup_bytes(&self, path: &[u8]) -> (r: Option<crate::hash::Hash>)
        requires
            self.wf(),
        ensures
            looked_up(self@, path@, r),
    {
        let ghost offs = self.path_offsets@;
        let ghost blob = self.path_blob@;
        let ghost n = self.hashes@.len();
        let ghost order = self.sorted_order@;
        proof {
            vstd::seq_lib::to_multiset_len(order);
            vstd::seq_lib::to_multiset_len(crate::sort::iota(n));
        }
        let mut lo: usize = 0;
        let mut hi: usize = self.sorted_order.len();
        while lo < hi
            invariant
                self.wf(),
                offs == self.path_offsets@,
                blob == self.path_blob@,
                n == self.hashes@.len(),
                order == self.sorted_order@,
                order.len() == n,
                lo <= hi <= order.len(),
                forall|k: int|
                    0 <= k < lo ==> lex_lt(#[trigger] packed_at(offs, blob, order[k] as int), path@),
                forall|k: int|
                    hi <= k < order.len() ==> lex_lt(
                        path@,
                        #[trigger] packed_at(offs, blob, order[k] as int),
                    ),
            decreases hi - lo,
        {
            let mid = lo + (hi - lo) / 2;
            let i = self.sorted_order[mid];
            assert(order[mid as int] < n);
            let p = packed_get(self.path_offsets.as_slice(), self.path_blob.as_slice(), i);
            if bytes_lt(path, p) {
                proof {
                    assert forall|k: int| mid <= k < order.len() implies lex_lt(
                        path@,
                        #[trigger] packed_at(offs, blob, order[k] as int),
                    ) by {
                        if k > mid {
                            assert(key_le(offs, blob, order[mid as int], order[k]));
                            if p@ != packed_at(offs, blob, order[k] as int) {
                                lemma_lex_lt_transitive(
                                    path@,
                                    p@,
                                    packed_at(offs, blob, order[k] as int),
                                );
                            }
                        }
                    }
                }
                hi = mid;
            } else if bytes_eq(path, p) {
                assert(self@[i as int] == (path@, self.hashes@[i as int]));
                return Some(self.hashes[i]);
            } else {
                proof {
                    lemma_lex_lt_total(path@, p@);
                    assert forall|k: int| 0 <= k < mid + 1 implies lex_lt(
                        #[trigger] packed_at(offs, blob, order[k] as int),
                        path@,
                    ) by {
                        if k < mid {
                            assert(key_le(offs, blob, order[k], order[mid as int]));
                            if p@ != packed_at(offs, blob, order[k] as int) {
                                lemma_lex_lt_transitive(
                                    packed_at(offs, blob, order[k] as int),
                                    p@,
                                    path@,
                                );
                            }
                        }
                    }
                }
                lo = mid + 1;
            }
        }
        proof {
            assert forall|i: int| 0 <= i < self@.len() implies (#[trigger] self@[i]).0 != path@ by {
                lemma_sorted_order_complete(offs, blob, n, order, i as usize);
                let k = choose|k: int| 0 <= k < order.len() && order[k] == i as usize;
                lemma_lex_lt_irreflexive(path@);
                if k < lo {
                    assert(lex_lt(packed_at(offs, blob, order[k] as int), path@));
                } else {
                    assert(lex_lt(path@, packed_at(offs, blob, order[k] as int)));
                }
            }
        }
        None
    }
}

/// In a sorted order, two places that hold equal strings have equal
/// strings at every place between them, and so at the place next to the
/// first.
pub proof fn lemma_run_equal(offs: Seq<u32>, blob: Seq<u8>, order: Seq<usize>, a: int, b: int)
    requires
        crate::sort::sorted_idx(offs, blob, order),
        0 <= a < b < order.len(),
        packed_at(offs, blob, order[a] as int) == packed_at(offs, blob, order[b] as int),
    ensures
        packed_at(offs, blob, order[a] as int) == packed_at(offs, blob, order[a + 1] as int),
{
    if a + 1 < b {
        assert(key_le(offs, blob, order[a], order[a + 1]));
        assert(key_le(offs, blob, order[a + 1], order[b]));
        let x = packed_at(offs, blob, order[a] as int);
        let y = packed_at(offs, blob, order[a + 1] as int);
        lemma_lex_lt_total(x, y);
    }
}

impl Default for SortedFlatTree {
    fn default() -> (t: Self)
        ensures
            t.wf(),
            t@ == Seq::<FlatEntry>::empty(),
    {
        SortedFlatTree::new()
    }
}

/// The most directories that a path of a flat tree may pass through: one
/// less than the most frames that the stack of a walk, a vector, can hold.
pub const MAX_TREE_DEPTH: usize = usize::MAX - 1;

/// What reading the tree under `h` gives: its entries; `NotFound` where
/// nothing is visible under the hash; `TypeMismatch` where the record is
/// framed as another kind, and `CorruptObjectDatabase` where it is the
/// record of no tree otherwise.
pub open spec fn tree_read(
    visible: Map<crate::hash::Hash, Seq<u8>>,
    h: crate::hash::Hash,
) -> Result<Seq<TreeEntryView>, Error> {
    if !visible.contains_key(h) {
        Err(Error::NotFound)
    } else if exists|es: Seq<TreeEntryView>| tree_ok(es) && #[trigger] tree_record(es) == visible[h] {
        Ok(choose|es: Seq<TreeEntryView>| tree_ok(es) && #[trigger] tree_record(es) == visible[h])
    } else if exists|tag: ObjectTag, p: Seq<u8>|
        tag != ObjectTag::Tree && visible[h] == #[trigger] framed(tag, p) {
        Err(Error::TypeMismatch)
    } else {
        Err(Error::CorruptObjectDatabase)
    }
}

/// The path of the entry `name` in the directory `prefix`.
pub open spec fn join(prefix: Seq<u8>, name: Seq<u8>) -> Seq<u8> {
    if prefix.len() == 0 {
        name
    } else {
        prefix + seq![SLASH] + name
    }
}

/// `head`, then what `tail` lists; or the error of `tail`.
pub open spec fn listed(head: Seq<FlatEntry>, tail: Result<Seq<FlatEntry>, Error>) -> Result<
    Seq<FlatEntry>,
    Error,
> {
    match tail {
        Ok(t) => Ok(head + t),
        Err(e) => Err(e),
    }
}

/// What the entries of a tree from entry `j` on list, for a tree that
/// stands at `prefix`: each blob with its path, and for each directory what
/// the tree under its hash lists, in the order of the entries. The first
/// tree that cannot be read fails the listing, and so does a directory
/// deeper than `fuel` below.
pub open spec fn flat_from(
    visible: Map<crate::hash::Hash, Seq<u8>>,
    es: Seq<TreeEntryView>,
    j: int,
    prefix: Seq<u8>,
    fuel: nat,
) -> Result<Seq<FlatEntry>, Error>
    decreases fuel, es.len() - j,
{
    if j < 0 || j >= es.len() {
        Ok(Seq::empty())
    } else {
        let e = es[j];
        let path = join(prefix, e.name);
        if e.mode == MODE_DIR {
            if fuel == 0 {
                Err(Error::InvalidInput)
            } else {
                match tree_read(visible, e.hash) {
                    Err(err) => Err(err),
                    Ok(sub) => match flat_from(visible, sub, 0, path, (fuel - 1) as nat) {
                        Err(err) => Err(err),
                        Ok(head) => listed(head, flat_from(visible, es, j + 1, prefix, fuel)),
                    },
                }
            }
        } else {
            listed(seq![(path, e.hash)], flat_from(visible, es, j + 1, prefix, fuel))
        }
    }
}

/// What the tree under `h` lists: every blob below it with its path, in
/// the order of the entries, directories in depth.
pub open spec fn flat_tree(
    visible: Map<crate::hash::Hash, Seq<u8>>,
    h: crate::hash::Hash,
) -> Result<Seq<FlatEntry>, Error> {
    match tree_read(visible, h) {
        Err(e) => Err(e),
        Ok(es) => flat_from(visible, es, 0, Seq::empty(), MAX_TREE_DEPTH as nat),
    }
}

/// The number of bytes of the paths.
pub open spec fn path_bytes(s: Seq<FlatEntry>) -> nat
    decreases s.len(),
{
    if s.len() == 0 {
        0
    } else {
        path_bytes(s.drop_last()) + s.last().0.len()
    }
}

/// A path with the hash of the blob that stands there.
pub struct FlatItem {
    pub path: Vec<u8>,
    pub hash: crate::hash::Hash,
}

/// Every path of the items is well-formed UTF-8.
pub open spec fn all_valid(items: Seq<FlatItem>) -> bool {
    forall|i: int| 0 <= i < items.len() ==> valid_utf8(#[trigger] items[i].path@)
}

/// The path of a well-formed name in a directory with a well-formed path
/// is well-formed.
pub proof fn lemma_join_valid(prefix: Seq<u8>, name: Seq<u8>)
    requires
        valid_utf8(prefix),
        valid_utf8(name),
    ensures
        valid_utf8(join(prefix, name)),
{
    if prefix.len() > 0 {
        let slash = seq![SLASH];
        assert(vstd::utf8::pop_first_scalar(slash) =~= Seq::<u8>::empty());
        assert(valid_utf8(vstd::utf8::pop_first_scalar(slash)));
        assert(vstd::utf8::valid_first_scalar(slash));
        assert(valid_utf8(slash));
        vstd::utf8::valid_utf8_concat(prefix, slash);
        vstd::utf8::valid_utf8_concat(prefix + slash, name);
    }
}

/// The entries that the items stand for.
pub open spec fn flat_items(items: Seq<FlatItem>) -> Seq<FlatEntry> {
    Seq::new(items.len(), |i: int| (items[i].path@, items[i].hash))
}

/// The entries of the tree under `h`, read from the storage.
pub fn read_tree<S: MogStorage>(repo: &Repository<S>, h: &crate::hash::Hash) -> (r: Result<
    Vec<TreeEntry>,
    Error,
>)
    requires
        repo.wf(),
    ensures
        match r {
            Ok(es) => tree_read(repo.storage.visible(), *h) == Ok::<Seq<TreeEntryView>, Error>(
                entry_views(es@),
            ),
            Err(e) => tree_read(repo.storage.visible(), *h) == Err::<Seq<TreeEntryView>, Error>(e),
        },
{
    let ghost visible = repo.storage.visible();
    match repo.read_tree_entries_without_touching_cache(h) {
        Ok(es) => {
            proof {
                let got = entry_views(es@);
                let c = choose|c: Seq<TreeEntryView>| tree_ok(c) && #[trigger] tree_record(c) == visible[*h];
                crate::object::lemma_record_injective(ObjectView::Tree(got), ObjectView::Tree(c));
            }
            Ok(es)
        },
        Err(e) => Err(e),
    }
}

/// The path of the entry `name` in the directory `prefix`.
fn join_path(prefix: &Vec<u8>, name: &[u8]) -> (p: Vec<u8>)
    ensures
        p@ == join(prefix@, name@),
{
    let mut p: Vec<u8> = Vec::new();
    if prefix.len() > 0 {
        p.extend_from_slice(prefix.as_slice());
        p.push(SLASH);
    }
    p.extend_from_slice(name);
    assert(p@ =~= join(prefix@, name@));
    p
}

/// A directory that a walk is in: the entries of its tree, the entry that
/// comes next, and its path.
pub struct WalkFrame {
    pub entries: Vec<TreeEntry>,
    pub next: usize,
    pub prefix: Vec<u8>,
}

/// A directory that a walk is in, as values.
pub struct FrameView {
    pub entries: Seq<TreeEntryView>,
    pub next: int,
    pub prefix: Seq<u8>,
}

impl View for WalkFrame {
    type V = FrameView;

    open spec fn view(&self) -> FrameView {
        FrameView { entries: entry_views(self.entries@), next: self.next as int, prefix: self.prefix@ }
    }
}

/// The directories that a walk is in, the root first.
pub open spec fn frame_views(stack: Seq<WalkFrame>) -> Seq<FrameView> {
    Seq::new(stack.len(), |i: int| stack[i]@)
}

/// Every directory of the walk has a well-formed path, and its next entry
/// is an entry or the end.
pub open spec fn frames_ok(stack: Seq<WalkFrame>) -> bool {
    forall|i: int|
        0 <= i < stack.len() ==> valid_utf8((#[trigger] stack[i]).prefix@) && stack[i].next
            <= stack[i].entries@.len()
}

/// What is left to list for a walk that is in the directories `frames`:
/// the rest of the innermost directory, then the rest of the one around
/// it, and so on out to the root. The directory at depth `k` may have
/// `limit - k` more directories below it.
pub open spec fn stack_listing(
    visible: Map<crate::hash::Hash, Seq<u8>>,
    frames: Seq<FrameView>,
    limit: nat,
) -> Result<Seq<FlatEntry>, Error>
    decreases frames.len(),
{
    if frames.len() == 0 {
        Ok(Seq::empty())
    } else {
        let top = frames.last();
        match flat_from(
            visible,
            top.entries,
            top.next,
            top.prefix,
            (limit - (frames.len() - 1)) as nat,
        ) {
            Err(e) => Err(e),
            Ok(head) => listed(head, stack_listing(visible, frames.drop_last(), limit)),
        }
    }
}

/// The number of steps that listing the entries from `j` on takes.
pub open spec fn flat_work(
    visible: Map<crate::hash::Hash, Seq<u8>>,
    es: Seq<TreeEntryView>,
    j: int,
    fuel: nat,
) -> nat
    decreases fuel, es.len() - j,
{
    if j < 0 || j >= es.len() {
        1
    } else if es[j].mode == MODE_DIR && fuel > 0 && tree_read(visible, es[j].hash) is Ok {
        1 + flat_work(visible, tree_read(visible, es[j].hash)->Ok_0, 0, (fuel - 1) as nat)
            + flat_work(visible, es, j + 1, fuel)
    } else {
        1 + flat_work(visible, es, j + 1, fuel)
    }
}

/// The number of steps that are left for a walk that is in the directories
/// `frames`.
pub open spec fn stack_work(
    visible: Map<crate::hash::Hash, Seq<u8>>,
    frames: Seq<FrameView>,
    limit: nat,
) -> nat
    decreases frames.len(),
{
    if frames.len() == 0 {
        0
    } else {
        flat_work(
            visible,
            frames.last().entries,
            frames.last().next,
            (limit - (frames.len() - 1)) as nat,
        ) + stack_work(visible, frames.drop_last(), limit)
    }
}

/// The frame `f` with its next entry passed.
pub open spec fn passed(f: FrameView) -> FrameView {
    FrameView { next: f.next + 1, ..f }
}

/// A walk that has reached the end of its innermost directory goes on in
/// the directory around it.
pub proof fn lemma_walk_done(
    visible: Map<crate::hash::Hash, Seq<u8>>,
    base: Seq<FrameView>,
    f: FrameView,
    limit: nat,
)
    requires
        f.next >= f.entries.len(),
    ensures
        stack_listing(visible, base.push(f), limit) == stack_listing(visible, base, limit),
        stack_work(visible, base.push(f), limit) == 1 + stack_work(visible, base, limit),
{
    assert(base.push(f).drop_last() =~= base);
    lemma_listed_empty(stack_listing(visible, base, limit));
}

/// A walk that stands before a blob lists it, and goes on behind it.
pub proof fn lemma_walk_file(
    visible: Map<crate::hash::Hash, Seq<u8>>,
    base: Seq<FrameView>,
    f: FrameView,
    limit: nat,
)
    requires
        0 <= f.next < f.entries.len(),
        f.entries[f.next].mode != MODE_DIR,
    ensures
        stack_listing(visible, base.push(f), limit) == listed(
            seq![(join(f.prefix, f.entries[f.next].name), f.entries[f.next].hash)],
            stack_listing(visible, base.push(passed(f)), limit),
        ),
        stack_work(visible, base.push(f), limit) == 1 + stack_work(
            visible,
            base.push(passed(f)),
            limit,
        ),
{
    let fuel = (limit - base.len()) as nat;
    let x = seq![(join(f.prefix, f.entries[f.next].name), f.entries[f.next].hash)];
    let rest = flat_from(visible, f.entries, f.next + 1, f.prefix, fuel);
    let below = stack_listing(visible, base, limit);
    assert(base.push(f).drop_last() =~= base);
    assert(base.push(passed(f)).drop_last() =~= base);
    assert(flat_from(visible, f.entries, f.next, f.prefix, fuel) == listed(x, rest));
    match rest {
        Ok(t) => {
            lemma_listed_twice(x, t, below);
        },
        Err(_) => {},
    }
}

/// A walk that stands before a directory goes on in it, where the tree of
/// the directory can be read and the walk is not too deep; the tree's
/// error, or `InvalidInput` for the depth, ends the listing.
pub proof fn lemma_walk_dir(
    visible: Map<crate::hash::Hash, Seq<u8>>,
    base: Seq<FrameView>,
    f: FrameView,
    limit: nat,
)
    requires
        0 <= f.next < f.entries.len(),
        f.entries[f.next].mode == MODE_DIR,
        base.len() <= limit,
    ensures
        base.len() == limit ==> stack_listing(visible, base.push(f), limit) == Err::<
            Seq<FlatEntry>,
            Error,
        >(Error::InvalidInput),
        base.len() < limit ==> match tree_read(visible, f.entries[f.next].hash) {
            Err(e) => stack_listing(visible, base.push(f), limit) == Err::<Seq<FlatEntry>, Error>(e),
            Ok(sub) => {
                let inner = FrameView {
                    entries: sub,
                    next: 0,
                    prefix: join(f.prefix, f.entries[f.next].name),
                };
                &&& stack_listing(visible, base.push(f), limit) == stack_listing(
                    visible,
                    base.push(passed(f)).push(inner),
                    limit,
                )
                &&& stack_work(visible, base.push(f), limit) == 1 + stack_work(
                    visible,
                    base.push(passed(f)).push(inner),
                    limit,
                )
            },
        },
{
    let fuel = (limit - base.len()) as nat;
    let e = f.entries[f.next];
    let below = stack_listing(visible, base, limit);
    let here = flat_from(visible, f.entries, f.next, f.prefix, fuel);
    assert(base.push(f).drop_last() =~= base);
    assert(base.push(f).last() == f);
    assert(base.push(passed(f)).drop_last() =~= base);
    assert(base.push(passed(f)).last() == passed(f));
    assert(stack_listing(visible, base.push(f), limit) == match here {
        Err(x) => Err::<Seq<FlatEntry>, Error>(x),
        Ok(h) => listed(h, below),
    });
    if base.len() < limit {
        match tree_read(visible, e.hash) {
            Err(_) => {},
            Ok(sub) => {
                let inner = FrameView { entries: sub, next: 0, prefix: join(f.prefix, e.name) };
                let one = base.push(passed(f));
                let two = one.push(inner);
                assert(two.drop_last() =~= one);
                assert(two.last() == inner);
                assert((limit - (two.len() - 1)) as nat == (fuel - 1) as nat);
                let head = flat_from(visible, sub, 0, inner.prefix, (fuel - 1) as nat);
                let rest = flat_from(visible, f.entries, f.next + 1, f.prefix, fuel);
                assert(here == match head {
                    Err(x) => Err::<Seq<FlatEntry>, Error>(x),
                    Ok(h) => listed(h, rest),
                });
                assert(stack_listing(visible, one, limit) == match rest {
                    Err(x) => Err::<Seq<FlatEntry>, Error>(x),
                    Ok(t) => listed(t, below),
                });
                assert(stack_listing(visible, two, limit) == match head {
                    Err(x) => Err::<Seq<FlatEntry>, Error>(x),
                    Ok(h) => listed(h, stack_listing(visible, one, limit)),
                });
                match head {
                    Err(_) => {},
                    Ok(h) => {
                        match rest {
                            Ok(t) => {
                                lemma_listed_twice(h, t, below);
                            },
                            Err(_) => {},
                        }
                    },
                }
                assert(flat_work(visible, f.entries, f.next, fuel) == 1 + flat_work(
                    visible,
                    sub,
                    0,
                    (fuel - 1) as nat,
                ) + flat_work(visible, f.entries, f.next + 1, fuel));
                assert(stack_work(visible, one, limit) == flat_work(
                    visible,
                    f.entries,
                    f.next + 1,
                    fuel,
                ) + stack_work(visible, base, limit));
                assert(stack_work(visible, two, limit) == flat_work(
                    visible,
                    sub,
                    0,
                    (fuel - 1) as nat,
                ) + stack_work(visible, one, limit));
            },
        }
    }
}

/// What the entries `root` of the tree at the top list: every blob below,
/// with its path. The walk keeps the directories that it is in on a stack
/// of its own.
#[verifier::spinoff_prover]
#[verifier::rlimit(60)]
fn collect_flat<S: MogStorage>(repo: &Repository<S>, root: Vec<TreeEntry>) -> (r: Result<
    Vec<FlatItem>,
    Error,
>)
    requires
        repo.wf(),
    ensures
        match flat_from(
            repo.storage.visible(),
            entry_views(root@),
            0,
            Seq::empty(),
            MAX_TREE_DEPTH as nat,
        ) {
            Ok(list) => r is Ok && flat_items(r->Ok_0@) == list && all_valid(r->Ok_0@),
            Err(e) => r is Err && r->Err_0 == e,
        },
{
    let ghost visible = repo.storage.visible();
    let ghost limit = MAX_TREE_DEPTH as nat;
    let ghost top = entry_views(root@);
    let ghost goal = flat_from(visible, top, 0, Seq::empty(), limit);
    let mut out: Vec<FlatItem> = Vec::new();
    let mut stack: Vec<WalkFrame> = Vec::new();
    let first = WalkFrame { entries: root, next: 0, prefix: Vec::new() };
    proof {
        let none = Seq::<FrameView>::empty();
        assert(first.prefix@ =~= Seq::<u8>::empty());
        assert(none.push(first@).drop_last() =~= none);
        assert(stack_listing(visible, none, limit) == Ok::<Seq<FlatEntry>, Error>(Seq::empty()));
        match goal {
            Ok(t) => {
                assert(t + Seq::<FlatEntry>::empty() =~= t);
            },
            Err(_) => {},
        }
        assert(stack_listing(visible, none.push(first@), limit) == goal);
        lemma_listed_empty(goal);
        assert(flat_items(out@) =~= Seq::<FlatEntry>::empty());
    }
    stack.push(first);
    assert(frame_views(stack@) =~= Seq::<FrameView>::empty().push(first@));
    while stack.len() > 0
        invariant
            repo.wf(),
            visible == repo.storage.visible(),
            limit == MAX_TREE_DEPTH as nat,
            stack@.len() <= limit + 1,
            frames_ok(stack@),
            all_valid(out@),
            top == entry_views(root@),
            goal == flat_from(visible, top, 0, Seq::empty(), limit),
            goal == listed(flat_items(out@), stack_listing(visible, frame_views(stack@), limit)),
        decreases stack_work(visible, frame_views(stack@), limit),
    {
        let ghost before = stack@;
        let ghost frames = frame_views(stack@);
        let mut f = match stack.pop() {
            Some(f) => f,
            None => {
                assert(false);
                return Err(Error::InvalidInput);
            },
        };
        let ghost base = frame_views(stack@);
        let ghost fv = f@;
        proof {
            assert(f == before[before.len() - 1]);
            assert(frames =~= base.push(fv));
            assert(frames_ok(stack@)) by {
                assert forall|i: int| 0 <= i < stack@.len() implies valid_utf8(
                    (#[trigger] stack@[i]).prefix@,
                ) && stack@[i].next <= stack@[i].entries@.len() by {
                    assert(stack@[i] == before[i]);
                }
            }
        }
        if f.next >= f.entries.len() {
            proof {
                lemma_walk_done(visible, base, fv, limit);
            }
        } else {
            let e = &f.entries[f.next];
            assert(fv.entries[fv.next] == e@);
            let mode = e.mode;
            let hash = e.hash;
            let path = join_path(&f.prefix, e.name.as_str().as_bytes());
            proof {
                crate::tree::lemma_entry_name_valid(*e);
                lemma_join_valid(f.prefix@, e@.name);
            }
            if mode == MODE_DIR {
                proof {
                    lemma_walk_dir(visible, base, fv, limit);
                }
                if stack.len() >= MAX_TREE_DEPTH {
                    return Err(Error::InvalidInput);
                }
                let sub = match read_tree(repo, &hash) {
                    Ok(sub) => sub,
                    Err(err) => {
                        return Err(err);
                    },
                };
                f.next = f.next + 1;
                let inner = WalkFrame { entries: sub, next: 0, prefix: path };
                let ghost mid = stack@;
                stack.push(f);
                stack.push(inner);
                proof {
                    assert(frame_views(stack@) =~= base.push(passed(fv)).push(inner@));
                    assert forall|i: int| 0 <= i < stack@.len() implies valid_utf8(
                        (#[trigger] stack@[i]).prefix@,
                    ) && stack@[i].next <= stack@[i].entries@.len() by {
                        if i < mid.len() {
                            assert(stack@[i] == mid[i]);
                        }
                    }
                }
            } else {
                proof {
                    lemma_walk_file(visible, base, fv, limit);
                }
                f.next = f.next + 1;
                let ghost mid = stack@;
                let ghost prev = out@;
                let ghost pv = path@;
                stack.push(f);
                out.push(FlatItem { path, hash });
                proof {
                    assert(frame_views(stack@) =~= base.push(passed(fv)));
                    assert forall|i: int| 0 <= i < stack@.len() implies valid_utf8(
                        (#[trigger] stack@[i]).prefix@,
                    ) && stack@[i].next <= stack@[i].entries@.len() by {
                        if i < mid.len() {
                            assert(stack@[i] == mid[i]);
                        }
                    }
                    assert(flat_items(out@) =~= flat_items(prev) + seq![(pv, hash)]);
                    lemma_listed_twice(
                        flat_items(prev),
                        seq![(pv, hash)],
                        stack_listing(visible, base.push(passed(fv)), limit),
                    );
                    assert forall|k: int| 0 <= k < out@.len() implies valid_utf8(
                        #[trigger] out@[k].path@,
                    ) by {
                        if k < prev.len() {
                            assert(out@[k] == prev[k]);
                        }
                    }
                }
            }
        }
    }
    proof {
        assert(frame_views(stack@) =~= Seq::<FrameView>::empty());
        match goal {
            Ok(t) => {
                assert(flat_items(out@) + Seq::<FlatEntry>::empty() =~= flat_items(out@));
            },
            Err(_) => {},
        }
    }
    Ok(out)
}

/// Listing nothing before a listing is that listing.
pub proof fn lemma_listed_empty(tail: Result<Seq<FlatEntry>, Error>)
    ensures
        listed(Seq::empty(), tail) == tail,
{
    match tail {
        Ok(t) => {
            assert(Seq::<FlatEntry>::empty() + t =~= t);
        },
        Err(_) => {},
    }
}

/// Listing `a`, then `b`, then a tail is listing `a + b`, then the tail.
pub proof fn lemma_listed_twice(a: Seq<FlatEntry>, b: Seq<FlatEntry>, tail: Result<Seq<FlatEntry>, Error>)
    ensures
        listed(a, listed(b, tail)) == listed(a + b, tail),
{
    match tail {
        Ok(t) => {
            assert(a + (b + t) =~= (a + b) + t);
        },
        Err(_) => {},
    }
}

/// The flat tree of the tree under `tree_hash`: every blob below it with
/// its path. A listing whose paths together are longer than a `u32` can say
/// is `StoreFull`.
pub fn flatten_tree<S: MogStorage>(repo: &Repository<S>, tree_hash: crate::hash::Hash) -> (r:
    Result<SortedFlatTree, Error>)
    requires
        repo.wf(),
    ensures
        match flat_tree(repo.storage.visible(), tree_hash) {
            Ok(list) => match r {
                Ok(t) => t.wf() && t@ == list,
                Err(e) => e == Error::StoreFull && path_bytes(list) > u32::MAX,
            },
            Err(e) => r is Err && r->Err_0 == e,
        },
{
    let root = match read_tree(repo, &tree_hash) {
        Ok(es) => es,
        Err(e) => {
            return Err(e);
        },
    };
    let items = match collect_flat(repo, root) {
        Ok(items) => items,
        Err(e) => {
            return Err(e);
        },
    };
    let ghost list = flat_items(items@);
    let mut b = FlatTreeBuilder::with_capacity(items.len());
    let n = items.len();
    let mut i: usize = 0;
    assert(list.take(0) =~= Seq::<FlatEntry>::empty());
    while i < n
        invariant
            i <= n,
            n == items@.len(),
            list == flat_items(items@),
            all_valid(items@),
            flat_tree(repo.storage.visible(), tree_hash) == Ok::<Seq<FlatEntry>, Error>(list),
            b.wf(),
            b.entries() == list.take(i as int),
            b.path_bytes() == path_bytes(list.take(i as int)),
        decreases n - i,
    {
        proof {
            assert(list.take(i + 1).drop_last() =~= list.take(i as int));
            assert(list.take(i + 1).last() == list[i as int]);
            lemma_path_bytes_take(list, i + 1);
        }
        let path = items[i].path.as_slice();
        if !b.can_push(path.len()) {
            return Err(Error::StoreFull);
        }
        match checked_str(path) {
            Some(s) => {
                b.push(s, items[i].hash);
            },
            None => {
                assert(valid_utf8(items@[i as int].path@));
                assert(false);
            },
        }
        assert(b.entries() =~= list.take(i + 1));
        i += 1;
    }
    assert(list.take(n as int) =~= list);
    Ok(b.build())
}

/// The first paths take no more bytes than all of them.
pub proof fn lemma_path_bytes_take(s: Seq<FlatEntry>, k: int)
    requires
        0 <= k <= s.len(),
    ensures
        path_bytes(s.take(k)) <= path_bytes(s),
    decreases s.len() - k,
{
    if k < s.len() {
        lemma_path_bytes_take(s, k + 1);
        assert(s.take(k + 1).drop_last() =~= s.take(k));
    } else {
        assert(s.take(k) =~= s);
    }
}

/// The UTF-8 bytes of each string.
pub open spec fn bytes_of(v: Seq<String>) -> Seq<Seq<u8>> {
    Seq::new(v.len(), |i: int| vstd::utf8::encode_utf8(v[i]@))
}

/// The strings are in byte-wise order.
pub open spec fn sorted_bytes(v: Seq<Seq<u8>>) -> bool {
    forall|i: int, j: int| 0 <= i < j < v.len() ==> lex_le(v[i], v[j])
}

/// `out` holds the strings of `all`, each as often as `all` has it, in
/// byte-wise order.
pub open spec fn is_sorted_copy(all: Seq<Seq<u8>>, out: Seq<Seq<u8>>) -> bool {
    out.to_multiset() == all.to_multiset() && sorted_bytes(out)
}

/// The strings of `paths` in byte-wise order. Strings that together are
/// longer than a `u32` can say are `StoreFull`.
pub fn sorted_paths(paths: &Vec<String>) -> (r: Result<Vec<String>, Error>)
    ensures
        match r {
            Ok(out) => is_sorted_copy(bytes_of(paths@), bytes_of(out@)) && crate::soa::cat(
                bytes_of(paths@),
            ).len() <= u32::MAX,
            Err(e) => e == Error::StoreFull && crate::soa::cat(bytes_of(paths@)).len() > u32::MAX,
        },
{
    let ghost all = bytes_of(paths@);
    let zero: crate::hash::Hash = [0u8; 32];
    let mut b = FlatTreeBuilder::with_capacity(paths.len());
    let n = paths.len();
    let mut i: usize = 0;
    assert(all.take(0) =~= Seq::<Seq<u8>>::empty());
    while i < n
        invariant
            i <= n,
            n == paths@.len(),
            all == bytes_of(paths@),
            b.wf(),
            b.entries().len() == i,
            b.path_bytes() == crate::soa::cat(all.take(i as int)).len(),
            forall|k: int| 0 <= k < i ==> (#[trigger] b.entries()[k]).0 == all[k],
        decreases n - i,
    {
        let p = paths[i].as_str();
        proof {
            crate::soa::lemma_cat_take(all, i as int);
            crate::soa::lemma_cat_take(all, i + 1);
        }
        if !b.can_push(p.as_bytes().len()) {
            return Err(Error::StoreFull);
        }
        b.push(p, zero);
        i += 1;
    }
    proof {
        assert(all.take(n as int) =~= all);
    }
    let t = b.build();
    let mut out: Vec<String> = Vec::new();
    let mut j: usize = 0;
    proof {
        vstd::seq_lib::to_multiset_len(t.sorted_order@);
        vstd::seq_lib::to_multiset_len(crate::sort::iota(n as nat));
    }
    while j < n
        invariant
            j <= n,
            n == t@.len(),
            n == t.sorted_order@.len(),
            n == all.len(),
            t.wf(),
            forall|k: int| 0 <= k < n ==> (#[trigger] t@[k]).0 == all[k],
            out@.len() == j,
            forall|k: int|
                0 <= k < j ==> #[trigger] bytes_of(out@)[k] == all[t.sorted_order@[k] as int],
        decreases n - j,
    {
        let i = t.sorted_order[j];
        assert(t.sorted_order@[j as int] < n);
        let s = t.get_path(i).to_owned();
        let ghost prev = out@;
        out.push(s);
        proof {
            assert forall|k: int| 0 <= k < j + 1 implies #[trigger] bytes_of(out@)[k]
                == all[t.sorted_order@[k] as int] by {
                if k < j {
                    assert(bytes_of(prev)[k] == all[t.sorted_order@[k] as int]);
                    assert(out@[k] == prev[k]);
                }
            }
        }
        j += 1;
    }
    proof {
        let got = bytes_of(out@);
        crate::sort::lemma_permuted(all, t.sorted_order@, got);
        assert forall|a: int, c: int| 0 <= a < c < got.len() implies lex_le(got[a], got[c]) by {
            assert(key_le(
                t.path_offsets@,
                t.path_blob@,
                t.sorted_order@[a],
                t.sorted_order@[c],
            ));
            assert(t@[t.sorted_order@[a] as int].0 == all[t.sorted_order@[a] as int]);
            assert(t@[t.sorted_order@[c] as int].0 == all[t.sorted_order@[c] as int]);
        }
    }
    Ok(out)
}

/// What the disk says of a staged file.
#[derive(Debug, Clone, Copy, PartialEq, Eq, Structural)]
pub enum DiskState {
    /// The file is there, with the modification time and the size that
    /// the index holds.
    Clean,
    /// The file is there, with another modification time or size.
    Modified,
    /// The file is not there.
    Deleted,
}

/// The state of the file behind entry `i`, given its stat data, or `None`
/// where the file could not be found.
pub fn disk_state(index: &Index, i: usize, stat: &Option<FileMeta>) -> (r: DiskState)
    requires
        index.arrays_ok(),
        i < index@.len(),
    ensures
        r == disk_state_of(index@[i as int], *stat),
{
    match stat {
        Some(meta) => {
            if index.is_dirty(i, meta) {
                DiskState::Modified
            } else {
                DiskState::Clean
            }
        },
        None => DiskState::Deleted,
    }
}

/// The state of the file behind an entry, given its stat data.
pub open spec fn disk_state_of(e: IndexEntryView, stat: Option<FileMeta>) -> DiskState {
    match stat {
        Some(meta) => if e.mtime != meta.mtime || e.size != meta.size {
            DiskState::Modified
        } else {
            DiskState::Clean
        },
        None => DiskState::Deleted,
    }
}

/// No path stands twice in the flat entries.
pub open spec fn distinct_paths(s: Seq<FlatEntry>) -> bool {
    forall|i: int, j: int| 0 <= i < j < s.len() ==> (#[trigger] s[i]).0 != (#[trigger] s[j]).0
}

/// Whether an entry is staged: the tree of `HEAD` has another hash at its
/// path, or none.
pub open spec fn is_staged(head: Seq<FlatEntry>, e: IndexEntryView) -> bool {
    !exists|k: int| 0 <= k < head.len() && #[trigger] head[k] == (e.path, e.hash)
}

/// The status of a working tree, in five buckets of paths, each in
/// byte-wise order.
pub struct StatusBuckets {
    /// Staged: in the index, and new or with another hash than in `HEAD`.
    pub staged_new_modified: Vec<String>,
    /// Staged for deletion: in `HEAD`, not in the index.
    pub staged_deleted: Vec<String>,
    /// In the index, and on disk with another modification time or size.
    pub modified: Vec<String>,
    /// In the index, not on disk.
    pub deleted: Vec<String>,
    /// On disk, not ignored and not in the index.
    pub untracked: Vec<String>,
}

/// The elements of `all` whose flag in `keep` is set, in order.
pub open spec fn selected(all: Seq<Seq<u8>>, keep: Seq<bool>) -> Seq<Seq<u8>>
    decreases all.len(),
{
    if all.len() == 0 || keep.len() != all.len() {
        Seq::empty()
    } else if keep.last() {
        selected(all.drop_last(), keep.drop_last()).push(all.last())
    } else {
        selected(all.drop_last(), keep.drop_last())
    }
}

/// The paths of the index, each with whether it is staged.
pub open spec fn staged_flags(index: Seq<IndexEntryView>, head: Seq<FlatEntry>) -> Seq<bool> {
    Seq::new(index.len(), |i: int| is_staged(head, index[i]))
}

/// The paths of the index, each with whether its file is in `state`.
pub open spec fn state_flags(
    index: Seq<IndexEntryView>,
    stats: Seq<Option<FileMeta>>,
    state: DiskState,
) -> Seq<bool> {
    Seq::new(index.len(), |i: int| disk_state_of(index[i], stats[i]) == state)
}

/// The paths of `HEAD`, each with whether the index lacks it.
pub open spec fn unstaged_flags(head: Seq<FlatEntry>, index: Seq<IndexEntryView>) -> Seq<bool> {
    Seq::new(
        head.len(),
        |k: int| forall|i: int| 0 <= i < index.len() ==> (#[trigger] index[i]).path != head[k].0,
    )
}

/// The paths found on disk, each with whether it is untracked: not empty,
/// not ignored, and not in the index.
pub open spec fn untracked_flags(
    walked: Seq<Seq<u8>>,
    ignore: &Ignore,
    index: Seq<IndexEntryView>,
) -> Seq<bool> {
    Seq::new(
        walked.len(),
        |k: int|
            walked[k].len() > 0 && !ignore.ignores(walked[k]) && forall|i: int|
                0 <= i < index.len() ==> (#[trigger] index[i]).path != walked[k],
    )
}

/// The paths of the flat entries.
pub open spec fn flat_paths(s: Seq<FlatEntry>) -> Seq<Seq<u8>> {
    Seq::new(s.len(), |k: int| s[k].0)
}

/// Sorts the status of a working tree into its buckets. `stats` holds the
/// stat data of the file behind each index entry, or `None` where it is not
/// there; `walked` holds the paths of the files found on disk.
pub fn collect_status(
    index: &Index,
    head: &SortedFlatTree,
    stats: &[Option<FileMeta>],
    walked: &Vec<String>,
    ignore: &Ignore,
) -> (r: Result<StatusBuckets, Error>)
    requires
        index.wf(),
        head.wf(),
        distinct_paths(head@),
        stats@.len() == index@.len(),
    ensures
        match r {
            Ok(b) => {
                &&& is_sorted_copy(
                    selected(index_paths(index@), staged_flags(index@, head@)),
                    bytes_of(b.staged_new_modified@),
                )
                &&& is_sorted_copy(
                    selected(flat_paths(head@), unstaged_flags(head@, index@)),
                    bytes_of(b.staged_deleted@),
                )
                &&& is_sorted_copy(
                    selected(
                        index_paths(index@),
                        state_flags(index@, stats@, DiskState::Modified),
                    ),
                    bytes_of(b.modified@),
                )
                &&& is_sorted_copy(
                    selected(index_paths(index@), state_flags(index@, stats@, DiskState::Deleted)),
                    bytes_of(b.deleted@),
                )
                &&& is_sorted_copy(
                    selected(bytes_of(walked@), untracked_flags(bytes_of(walked@), ignore, index@)),
                    bytes_of(b.untracked@),
                )
                &&& crate::soa::cat(
                    selected(bytes_of(walked@), untracked_flags(bytes_of(walked@), ignore, index@)),
                ).len() <= u32::MAX
            },
            Err(e) => e == Error::StoreFull && crate::soa::cat(
                selected(bytes_of(walked@), untracked_flags(bytes_of(walked@), ignore, index@)),
            ).len() > u32::MAX,
        },
{
    let n = index.count;
    let ghost paths = index_paths(index@);
    let ghost f_staged = staged_flags(index@, head@);
    let ghost f_mod = state_flags(index@, stats@, DiskState::Modified);
    let ghost f_del = state_flags(index@, stats@, DiskState::Deleted);
    let mut staged: Vec<String> = Vec::new();
    let mut modified: Vec<String> = Vec::new();
    let mut deleted: Vec<String> = Vec::new();
    let mut i: usize = 0;
    proof {
        lemma_selected_none(paths.take(0), f_staged.take(0));
        lemma_selected_none(paths.take(0), f_mod.take(0));
        lemma_selected_none(paths.take(0), f_del.take(0));
    }
    while i < n
        invariant
            i <= n,
            n == index@.len(),
            index.wf(),
            head.wf(),
            distinct_paths(head@),
            stats@.len() == n,
            paths == index_paths(index@),
            f_staged == staged_flags(index@, head@),
            f_mod == state_flags(index@, stats@, DiskState::Modified),
            f_del == state_flags(index@, stats@, DiskState::Deleted),
            bytes_of(staged@) == selected(paths.take(i as int), f_staged.take(i as int)),
            bytes_of(modified@) == selected(paths.take(i as int), f_mod.take(i as int)),
            bytes_of(deleted@) == selected(paths.take(i as int), f_del.take(i as int)),
        decreases n - i,
    {
        let path = index.get_path(i);
        let head_hash = head.lookup(path);
        let is_staged_now = match head_hash {
            Some(h) => !crate::hash::hash_eq(&h, &index.hashes[i]),
            None => true,
        };
        assert(is_staged_now == (head_hash != Some(index@[i as int].hash)));
        let state = disk_state(index, i, &stats[i]);
        proof {
            lemma_selected_step(paths, f_staged, i as int);
            lemma_selected_step(paths, f_mod, i as int);
            lemma_selected_step(paths, f_del, i as int);
            assert(paths[i as int] == path.spec_bytes());
            lemma_staged(head, index@[i as int], head_hash);
        }
        if is_staged_now {
            let ghost prev = staged@;
            staged.push(path.to_owned());
            assert(bytes_of(staged@) =~= bytes_of(prev).push(path.spec_bytes()));
        }
        match state {
            DiskState::Modified => {
                let ghost prev = modified@;
                modified.push(path.to_owned());
                assert(bytes_of(modified@) =~= bytes_of(prev).push(path.spec_bytes()));
            },
            DiskState::Deleted => {
                let ghost prev = deleted@;
                deleted.push(path.to_owned());
                assert(bytes_of(deleted@) =~= bytes_of(prev).push(path.spec_bytes()));
            },
            DiskState::Clean => {},
        }
        i += 1;
    }
    proof {
        assert(paths.take(n as int) =~= paths);
        assert(f_staged.take(n as int) =~= f_staged);
        assert(f_mod.take(n as int) =~= f_mod);
        assert(f_del.take(n as int) =~= f_del);
    }
    let m = head.len();
    let ghost hpaths = flat_paths(head@);
    let ghost f_gone = unstaged_flags(head@, index@);
    let mut staged_deleted: Vec<String> = Vec::new();
    let mut k: usize = 0;
    proof {
        lemma_selected_none(hpaths.take(0), f_gone.take(0));
    }
    while k < m
        invariant
            k <= m,
            m == head@.len(),
            index.wf(),
            head.wf(),
            hpaths == flat_paths(head@),
            f_gone == unstaged_flags(head@, index@),
            bytes_of(staged_deleted@) == selected(hpaths.take(k as int), f_gone.take(k as int)),
        decreases m - k,
    {
        let path = head.get_path(k);
        proof {
            lemma_selected_step(hpaths, f_gone, k as int);
        }
        if index.find(path).is_none() {
            let ghost prev = staged_deleted@;
            staged_deleted.push(path.to_owned());
            assert(bytes_of(staged_deleted@) =~= bytes_of(prev).push(path.spec_bytes()));
        } else {
            assert(!f_gone[k as int]);
        }
        k += 1;
    }
    proof {
        assert(hpaths.take(m as int) =~= hpaths);
        assert(f_gone.take(m as int) =~= f_gone);
    }
    let w = walked.len();
    let ghost wpaths = bytes_of(walked@);
    let ghost f_new = untracked_flags(wpaths, ignore, index@);
    let mut untracked: Vec<String> = Vec::new();
    let mut q: usize = 0;
    proof {
        lemma_selected_none(wpaths.take(0), f_new.take(0));
    }
    while q < w
        invariant
            q <= w,
            w == walked@.len(),
            index.wf(),
            wpaths == bytes_of(walked@),
            f_new == untracked_flags(wpaths, ignore, index@),
            bytes_of(untracked@) == selected(wpaths.take(q as int), f_new.take(q as int)),
        decreases w - q,
    {
        let path = walked[q].as_str();
        proof {
            lemma_selected_step(wpaths, f_new, q as int);
        }
        let empty = path.as_bytes().len() == 0;
        if !empty && !ignore.is_ignored_rel(path) && index.find(path).is_none() {
            let ghost prev = untracked@;
            untracked.push(path.to_owned());
            assert(bytes_of(untracked@) =~= bytes_of(prev).push(path.spec_bytes()));
        } else {
            assert(!f_new[q as int]);
        }
        q += 1;
    }
    proof {
        assert(wpaths.take(w as int) =~= wpaths);
        assert(f_new.take(w as int) =~= f_new);
    }
    proof {
        index.lemma_columns();
        lemma_selected_len(paths, f_staged);
        lemma_selected_len(paths, f_mod);
        lemma_selected_len(paths, f_del);
        lemma_selected_len(hpaths, f_gone);
        assert(hpaths =~= crate::soa::unpack(head.path_offsets@, head.path_blob@).drop_last());
        crate::soa::lemma_unpack_pack(head.path_offsets@, head.path_blob@);
        let whole = crate::soa::unpack(head.path_offsets@, head.path_blob@);
        crate::soa::lemma_cat_take(whole, whole.len() - 1);
        assert(whole.take(whole.len() - 1) =~= whole.drop_last());
    }
    let untracked = sorted_paths(&untracked)?;
    let staged_new_modified = match sorted_paths(&staged) {
        Ok(v) => v,
        Err(e) => {
            assert(false);
            return Err(e);
        },
    };
    let staged_deleted = match sorted_paths(&staged_deleted) {
        Ok(v) => v,
        Err(e) => {
            assert(false);
            return Err(e);
        },
    };
    let modified = match sorted_paths(&modified) {
        Ok(v) => v,
        Err(e) => {
            assert(false);
            return Err(e);
        },
    };
    let deleted = match sorted_paths(&deleted) {
        Ok(v) => v,
        Err(e) => {
            assert(false);
            return Err(e);
        },
    };
    Ok(StatusBuckets { staged_new_modified, staged_deleted, modified, deleted, untracked })
}

/// What is selected takes no more bytes than all of it.
pub proof fn lemma_selected_len(all: Seq<Seq<u8>>, keep: Seq<bool>)
    ensures
        crate::soa::cat(selected(all, keep)).len() <= crate::soa::cat(all).len(),
    decreases all.len(),
{
    if all.len() > 0 && keep.len() == all.len() {
        lemma_selected_len(all.drop_last(), keep.drop_last());
        if keep.last() {
            crate::soa::lemma_cat_push(selected(all.drop_last(), keep.drop_last()), all.last());
        }
    }
}

/// For each path, whether the tree of `HEAD` holds it.
pub open spec fn known_flags(paths: Seq<Seq<u8>>, head: Seq<FlatEntry>) -> Seq<bool> {
    Seq::new(
        paths.len(),
        |i: int| exists|k: int| 0 <= k < head.len() && (#[trigger] head[k]).0 == paths[i],
    )
}

/// For each path, whether the tree of `HEAD` lacks it.
pub open spec fn new_flags(paths: Seq<Seq<u8>>, head: Seq<FlatEntry>) -> Seq<bool> {
    Seq::new(
        paths.len(),
        |i: int| !exists|k: int| 0 <= k < head.len() && (#[trigger] head[k]).0 == paths[i],
    )
}

/// Splits the staged paths in two, each in the order in which they came:
/// the new ones, which the tree of `HEAD` lacks, and the modified ones,
/// which it holds.
pub fn split_staged(staged: &Vec<String>, head: &SortedFlatTree) -> (r: (Vec<String>, Vec<String>))
    requires
        head.wf(),
    ensures
        bytes_of(r.0@) == selected(bytes_of(staged@), new_flags(bytes_of(staged@), head@)),
        bytes_of(r.1@) == selected(bytes_of(staged@), known_flags(bytes_of(staged@), head@)),
{
    let ghost all = bytes_of(staged@);
    let ghost fresh = new_flags(all, head@);
    let ghost known = known_flags(all, head@);
    let mut new: Vec<String> = Vec::new();
    let mut modified: Vec<String> = Vec::new();
    let n = staged.len();
    let mut i: usize = 0;
    proof {
        lemma_selected_none(all.take(0), fresh.take(0));
        lemma_selected_none(all.take(0), known.take(0));
        assert(bytes_of(new@) =~= Seq::<Seq<u8>>::empty());
        assert(bytes_of(modified@) =~= Seq::<Seq<u8>>::empty());
    }
    while i < n
        invariant
            i <= n,
            n == staged@.len(),
            head.wf(),
            all == bytes_of(staged@),
            fresh == new_flags(all, head@),
            known == known_flags(all, head@),
            bytes_of(new@) == selected(all.take(i as int), fresh.take(i as int)),
            bytes_of(modified@) == selected(all.take(i as int), known.take(i as int)),
        decreases n - i,
    {
        let path = staged[i].as_str();
        proof {
            lemma_selected_step(all, fresh, i as int);
            lemma_selected_step(all, known, i as int);
        }
        match head.lookup(path) {
            Some(h) => {
                proof {
                    let k = choose|k: int| 0 <= k < head@.len() && #[trigger] head@[k] == (all[i as int], h);
                    assert(head@[k].0 == all[i as int]);
                    assert(known[i as int]);
                    assert(!fresh[i as int]);
                }
                let ghost before = bytes_of(modified@);
                modified.push(path.to_owned());
                assert(bytes_of(modified@) =~= before.push(all[i as int]));
            },
            None => {
                proof {
                    assert(!known[i as int]);
                    assert(fresh[i as int]);
                }
                let ghost before = bytes_of(new@);
                new.push(path.to_owned());
                assert(bytes_of(new@) =~= before.push(all[i as int]));
            },
        }
        i += 1;
    }
    proof {
        assert(all.take(n as int) =~= all);
        assert(fresh.take(n as int) =~= fresh);
        assert(known.take(n as int) =~= known);
    }
    (new, modified)
}

/// Nothing is selected from nothing.
pub proof fn lemma_selected_none(all: Seq<Seq<u8>>, keep: Seq<bool>)
    requires
        all.len() == 0,
    ensures
        selected(all, keep) == Seq::<Seq<u8>>::empty(),
{
}

/// What is selected from the first `i + 1` strings is what is selected from
/// the first `i`, and string `i` where its flag is set.
pub proof fn lemma_selected_step(all: Seq<Seq<u8>>, keep: Seq<bool>, i: int)
    requires
        0 <= i < all.len(),
        all.len() == keep.len(),
    ensures
        selected(all.take(i + 1), keep.take(i + 1)) == if keep[i] {
            selected(all.take(i), keep.take(i)).push(all[i])
        } else {
            selected(all.take(i), keep.take(i))
        },
{
    assert(all.take(i + 1).drop_last() =~= all.take(i));
    assert(keep.take(i + 1).drop_last() =~= keep.take(i));
}

/// What a lookup in the tree of `HEAD` says of an entry: it is staged
/// unless the lookup gives its hash.
pub proof fn lemma_staged(head: &SortedFlatTree, e: IndexEntryView, r: Option<crate::hash::Hash>)
    requires
        head.wf(),
        distinct_paths(head@),
        looked_up(head@, e.path, r),
    ensures
        is_staged(head@, e) == (r != Some(e.hash)),
{
    match r {
        Some(h) => {
            let i = choose|i: int| 0 <= i < head@.len() && #[trigger] head@[i] == (e.path, h);
            if h == e.hash {
                assert(head@[i] == (e.path, e.hash));
            } else if !is_staged(head@, e) {
                let k = choose|k: int| 0 <= k < head@.len() && #[trigger] head@[k] == (e.path, e.hash);
                assert(head@[i].0 == head@[k].0);
            }
        },
        None => {
            if !is_staged(head@, e) {
                let k = choose|k: int| 0 <= k < head@.len() && #[trigger] head@[k] == (e.path, e.hash);
                assert(head@[k].0 == e.path);
            }
        },
    }
}

} // verus!
