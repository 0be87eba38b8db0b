//! The staging index: the staged paths with their modes, hashes and stat
//! data in parallel arrays, a lookup table from path hash to positions, and
//! the binary form in which the index is kept on disk.

use crate::error::Error;
use crate::object::{MODE_EXEC, MODE_FILE};
use crate::soa::{
    cat, check_packed, check_packed_utf8, column, enc_hash, enc_i64, enc_u32, enc_u64,
    lemma_cat_take, lemma_column_injective, lemma_column_len, lemma_encoders, lemma_pack_unpack,
    lemma_packed_push, lemma_unpack_pack, packed_at, packed_get, packed_ok, packed_utf8,
    read_hashes, read_i64s, read_u32s, read_u64s, starts, unpack, write_hashes, write_i64s,
    write_u32s, write_u64s,
};
use crate::build_tree::{
    build_failed, build_tree, built, slices, tree_hash, trees_written, Built,
};
use crate::repository::Repository;
use crate::sort::sort_by_path;
use crate::storage::MogStorage;
use crate::util::{bytes_eq, lex_le, str_from_utf8_data_shouldve_been_valid_or_we_got_hacked};
use crate::wire::{
    lemma_int_le, lemma_split_at, lemma_u32_le_injective, u32_le, ReadCursor, WriteCursor,
};
use std::collections::HashMap;
use vstd::multiset::Multiset;
use vstd::prelude::*;
use vstd::slice::{slice_subrange, slice_to_vec};
use vstd::string::StringSliceAdditionalSpecFns;
use vstd::utf8::{encode_utf8_valid_utf8, valid_utf8};

verus! {

broadcast use vstd::std_specs::hash::group_hash_axioms;

/// The bytes of the magic, the version and the count.
pub const MINIMAL_HEADER_SIZE_IN_BYTES: usize = 12;

/// The bytes of the field that holds the length of the paths blob.
pub const PATHS_BLOB_LEN_SIZE_IN_BYTES: usize = 4;

/// The bytes that an entry takes in the parallel arrays.
pub const ENTRY_SIZE_IN_BYTES: usize = 56;

/// The version of the index format.
pub const INDEX_VERSION: u32 = 1;

/// What the index needs to know of a file: when it was last modified, how
/// long it is, and whether it may be executed.
pub trait FileStat {
    /// The modification time, in seconds since the epoch.
    spec fn spec_mtime(&self) -> i64;

    /// The length in bytes.
    spec fn spec_size(&self) -> u64;

    /// Whether the file may be executed.
    spec fn spec_executable(&self) -> bool;

    /// The modification time, in seconds since the epoch.
    fn mtime(&self) -> (r: i64)
        ensures
            r == self.spec_mtime(),
    ;

    /// The length in bytes.
    fn size(&self) -> (r: u64)
        ensures
            r == self.spec_size(),
    ;

    /// Whether the file may be executed.
    fn is_executable(&self) -> (r: bool)
        ensures
            r == self.spec_executable(),
    ;
}

/// The stat data of a file that is not executable.
#[derive(Debug, Clone, Copy)]
pub struct FakeMeta {
    pub mtime: i64,
    pub size: u64,
}

/// The stat data of a file.
#[derive(Debug, Clone, Copy)]
pub struct FileMeta {
    pub mtime: i64,
    pub size: u64,
    pub executable: bool,
}

impl FileStat for FakeMeta {
    open spec fn spec_mtime(&self) -> i64 {
        self.mtime
    }

    open spec fn spec_size(&self) -> u64 {
        self.size
    }

    open spec fn spec_executable(&self) -> bool {
        false
    }

    fn mtime(&self) -> (r: i64) {
        self.mtime
    }

    fn size(&self) -> (r: u64) {
        self.size
    }

    fn is_executable(&self) -> (r: bool) {
        false
    }
}

impl FileStat for FileMeta {
    open spec fn spec_mtime(&self) -> i64 {
        self.mtime
    }

    open spec fn spec_size(&self) -> u64 {
        self.size
    }

    open spec fn spec_executable(&self) -> bool {
        self.executable
    }

    fn mtime(&self) -> (r: i64) {
        self.mtime
    }

    fn size(&self) -> (r: u64) {
        self.size
    }

    fn is_executable(&self) -> (r: bool) {
        self.executable
    }
}

/// The mode under which a file is staged: executable or regular.
pub open spec fn mode_of(executable: bool) -> u32 {
    if executable {
        MODE_EXEC
    } else {
        MODE_FILE
    }
}

/// What an index entry is, with its path as UTF-8 bytes.
pub struct IndexEntryView {
    pub mode: u32,
    pub hash: crate::hash::Hash,
    pub mtime: i64,
    pub size: u64,
    pub path: Seq<u8>,
}

/// The XXH3 64-bit hash (seed 0, default secret) of a byte string.
pub uninterp spec fn xxh3_64_of(bytes: Seq<u8>) -> u64;

/// `xxhash_rust::xxh3::xxh3_64`: the XXH3 hash of the bytes.
#[verifier::external_body]
fn path_hash(path: &[u8]) -> (h: u64)
    ensures
        h == xxh3_64_of(path@),
{
    xxhash_rust::xxh3::xxh3_64(path)
}

/// The modes of the entries, in order.
pub open spec fn index_modes(s: Seq<IndexEntryView>) -> Seq<u32> {
    Seq::new(s.len(), |i: int| s[i].mode)
}

/// The hashes of the entries, in order.
pub open spec fn index_hashes(s: Seq<IndexEntryView>) -> Seq<crate::hash::Hash> {
    Seq::new(s.len(), |i: int| s[i].hash)
}

/// The modification times of the entries, in order.
pub open spec fn index_mtimes(s: Seq<IndexEntryView>) -> Seq<i64> {
    Seq::new(s.len(), |i: int| s[i].mtime)
}

/// The sizes of the entries, in order.
pub open spec fn index_sizes(s: Seq<IndexEntryView>) -> Seq<u64> {
    Seq::new(s.len(), |i: int| s[i].size)
}

/// The paths of the entries, in order.
pub open spec fn index_paths(s: Seq<IndexEntryView>) -> Seq<Seq<u8>> {
    Seq::new(s.len(), |i: int| s[i].path)
}

/// No two entries have the same path.
pub open spec fn paths_distinct(paths: Seq<Seq<u8>>) -> bool {
    forall|i: int, j: int| 0 <= i < j < paths.len() ==> paths[i] != paths[j]
}

/// Whether entries can be an index: their count and the total length of
/// their paths fit a `u32`, every path is well-formed UTF-8, and no path
/// occurs twice.
pub open spec fn index_ok(s: Seq<IndexEntryView>) -> bool {
    &&& s.len() <= u32::MAX
    &&& cat(index_paths(s)).len() <= u32::MAX
    &&& forall|i: int| 0 <= i < s.len() ==> valid_utf8(#[trigger] s[i].path)
    &&& paths_distinct(index_paths(s))
}

/// The magic `MOGG` and the version of the index file.
pub open spec fn index_header() -> Seq<u8> {
    seq![0x4du8, 0x4fu8, 0x47u8, 0x47u8] + u32_le(INDEX_VERSION)
}

/// What follows the header: the count, the five arrays, and the paths blob
/// behind its length.
pub open spec fn index_body(s: Seq<IndexEntryView>) -> Seq<u8> {
    u32_le(s.len() as u32) + column(index_modes(s), enc_u32()) + column(
        index_hashes(s),
        enc_hash(),
    ) + column(index_mtimes(s), enc_i64()) + column(index_sizes(s), enc_u64()) + column(
        starts(index_paths(s)),
        enc_u32(),
    ) + u32_le(cat(index_paths(s)).len() as u32) + cat(index_paths(s))
}

/// The index file of the entries.
pub open spec fn index_bytes(s: Seq<IndexEntryView>) -> Seq<u8> {
    index_header() + index_body(s)
}

/// What a lookup of `path` among the entries gives: the position of an
/// entry with that path, and nothing only where no entry has it.
pub open spec fn found_at(s: Seq<IndexEntryView>, path: Seq<u8>, r: Option<usize>) -> bool {
    match r {
        Some(i) => i < s.len() && s[i as int].path == path,
        None => forall|i: int| 0 <= i < s.len() ==> (#[trigger] s[i]).path != path,
    }
}

/// Whether the entries `s` take an entry of the path `p`: one of them has
/// the path already, or one more entry fits, the count and the total length
/// of the paths staying within a `u32`.
pub open spec fn takes_entry(s: Seq<IndexEntryView>, p: Seq<u8>) -> bool {
    (exists|i: int| 0 <= i < s.len() && (#[trigger] s[i]).path == p) || (s.len() < u32::MAX && cat(
        index_paths(s),
    ).len() + p.len() <= u32::MAX)
}

/// What adding the entry `e` to `old` gives: `e` in the place of the entry
/// with its path, or behind all entries where no entry has its path.
pub open spec fn added(old: Seq<IndexEntryView>, e: IndexEntryView, new: Seq<IndexEntryView>) -> bool {
    if exists|i: int| 0 <= i < old.len() && (#[trigger] old[i]).path == e.path {
        exists|i: int| 0 <= i < old.len() && (#[trigger] old[i]).path == e.path && new == old.update(i, e)
    } else {
        new == old.push(e)
    }
}

/// What removing `path` from `old` gives: `old` without the entry of that
/// path, and whether there was one.
pub open spec fn removed(old: Seq<IndexEntryView>, path: Seq<u8>, new: Seq<IndexEntryView>, r: bool) -> bool {
    if exists|i: int| 0 <= i < old.len() && (#[trigger] old[i]).path == path {
        r && exists|i: int| 0 <= i < old.len() && (#[trigger] old[i]).path == path && new == old.remove(i)
    } else {
        !r && new == old
    }
}

/// Whether the lists index the paths: every path stands in the list of its
/// hash, and every position in a list is the position of a path.
pub open spec fn indexed(lists: Map<u64, Seq<usize>>, paths: Seq<Seq<u8>>) -> bool {
    &&& forall|i: int|
        0 <= i < paths.len() ==> lists.contains_key(xxh3_64_of(#[trigger] paths[i])) && lists[xxh3_64_of(paths[i])].contains(i as usize)
    &&& forall|h: u64, k: int|
        lists.contains_key(h) && 0 <= k < lists[h].len() ==> (#[trigger] lists[h][k]) < paths.len()
}

/// The lists of a lookup table.
pub open spec fn lists_of(m: Map<u64, Vec<usize>>) -> Map<u64, Seq<usize>> {
    Map::new(|h: u64| m.contains_key(h), |h: u64| m[h]@)
}

/// Looks `path` up among the first `upto` strings of a packing, through a
/// table that indexes those.
fn lookup_path(
    table: &HashMap<u64, Vec<usize>>,
    offsets: &[u32],
    blob: &[u8],
    path: &[u8],
    Ghost(upto): Ghost<int>,
) -> (r: Option<usize>)
    requires
        packed_ok(offsets@, blob@),
        0 <= upto <= offsets@.len(),
        indexed(lists_of(table@), unpack(offsets@, blob@).take(upto)),
    ensures
        match r {
            Some(i) => i < upto && packed_at(offsets@, blob@, i as int) == path@,
            None => forall|i: int| 0 <= i < upto ==> #[trigger] packed_at(offsets@, blob@, i) != path@,
        },
{
    let ghost paths = unpack(offsets@, blob@).take(upto);
    let ghost lists = lists_of(table@);
    let m = offsets.len();
    let h = path_hash(path);
    match table.get(&h) {
        None => {
            proof {
                assert forall|i: int| 0 <= i < upto implies #[trigger] packed_at(offsets@, blob@, i)
                    != path@ by {
                    assert(paths[i] == packed_at(offsets@, blob@, i));
                    assert(lists.contains_key(xxh3_64_of(paths[i])));
                }
            }
            None
        },
        Some(list) => {
            assert(list@ == lists[h]);
            let n = list.len();
            let mut k: usize = 0;
            while k < n
                invariant
                    k <= n,
                    n == list@.len(),
                    m == offsets@.len(),
                    h == xxh3_64_of(path@),
                    packed_ok(offsets@, blob@),
                    0 <= upto <= offsets@.len(),
                    lists.contains_key(h),
                    list@ == lists[h],
                    paths == unpack(offsets@, blob@).take(upto),
                    indexed(lists, paths),
                    forall|j: int|
                        0 <= j < k ==> #[trigger] packed_at(offsets@, blob@, list@[j] as int)
                            != path@,
                decreases n - k,
            {
                let idx = list[k];
                assert(lists[h][k as int] < paths.len());
                let p = packed_get(offsets, blob, idx);
                if bytes_eq(p, path) {
                    return Some(idx);
                }
                k += 1;
            }
            proof {
                assert forall|i: int| 0 <= i < upto implies #[trigger] packed_at(offsets@, blob@, i)
                    != path@ by {
                    assert(paths[i] == packed_at(offsets@, blob@, i));
                    if paths[i] == path@ {
                        let iu = i as usize;
                        assert(offsets@.len() == m);
                        assert(iu as int == i);
                        assert(xxh3_64_of(paths[i]) == h);
                        assert(lists[h].contains(iu));
                        let j = choose|j: int| 0 <= j < lists[h].len() && lists[h][j] == iu;
                        assert(list@[j] == iu);
                        assert(packed_at(offsets@, blob@, list@[j] as int) != path@);
                    }
                }
            }
            None
        },
    }
}

/// Enters position `i` into the list of the hash `h`.
fn table_add(table: &mut HashMap<u64, Vec<usize>>, h: u64, i: usize)
    ensures
        lists_of(final(table)@) == lists_of(old(table)@).insert(
            h,
            (if old(table)@.contains_key(h) {
                old(table)@[h]@
            } else {
                Seq::<usize>::empty()
            }).push(i),
        ),
{
    let mut list = match table.remove(&h) {
        Some(l) => l,
        None => Vec::new(),
    };
    list.push(i);
    table.insert(h, list);
    assert(lists_of(table@) =~= lists_of(old(table)@).insert(
        h,
        (if old(table)@.contains_key(h) {
            old(table)@[h]@
        } else {
            Seq::<usize>::empty()
        }).push(i),
    ));
}

/// A table that indexes paths, with the position of one more path entered
/// under its hash, indexes the paths and the new one.
pub proof fn lemma_indexed_push(lists: Map<u64, Seq<usize>>, paths: Seq<Seq<u8>>, p: Seq<u8>)
    requires
        indexed(lists, paths),
        paths.len() < usize::MAX,
    ensures
        indexed(
            lists.insert(
                xxh3_64_of(p),
                (if lists.contains_key(xxh3_64_of(p)) {
                    lists[xxh3_64_of(p)]
                } else {
                    Seq::<usize>::empty()
                }).push(paths.len() as usize),
            ),
            paths.push(p),
        ),
{
    let h = xxh3_64_of(p);
    let n = paths.len() as usize;
    let old_list = if lists.contains_key(h) {
        lists[h]
    } else {
        Seq::<usize>::empty()
    };
    let new_list = old_list.push(n);
    let lists2 = lists.insert(h, new_list);
    let paths2 = paths.push(p);
    assert forall|i: int| 0 <= i < paths2.len() implies lists2.contains_key(
        xxh3_64_of(#[trigger] paths2[i]),
    ) && lists2[xxh3_64_of(paths2[i])].contains(i as usize) by {
        if i < paths.len() {
            assert(paths2[i] == paths[i]);
            let hi = xxh3_64_of(paths[i]);
            assert(lists[hi].contains(i as usize));
            if hi == h {
                let k = choose|k: int| 0 <= k < old_list.len() && old_list[k] == i as usize;
                assert(new_list[k] == i as usize);
            }
        } else {
            assert(new_list[old_list.len() as int] == n);
        }
    }
    assert forall|g: u64, k: int| lists2.contains_key(g) && 0 <= k < lists2[g].len() implies (
    #[trigger] lists2[g][k]) < paths2.len() by {
        if g == h {
            if k < old_list.len() {
                assert(lists[h][k] < paths.len());
            }
        } else {
            assert(lists[g][k] < paths.len());
        }
    }
}

/// The staging index.
#[derive(Clone)]
pub struct Index {
    pub count: usize,
    pub modes: Vec<u32>,
    pub hashes: Vec<crate::hash::Hash>,
    pub mtimes: Vec<i64>,
    pub sizes: Vec<u64>,
    pub path_offsets: Vec<u32>,
    pub paths_blob: Vec<u8>,
    /// From the hash of a path to the positions of the entries whose path
    /// has that hash.
    pub path_index: HashMap<u64, Vec<usize>>,
}

impl View for Index {
    type V = Seq<IndexEntryView>;

    open spec fn view(&self) -> Seq<IndexEntryView> {
        Seq::new(
            self.count as nat,
            |i: int|
                IndexEntryView {
                    mode: self.modes@[i],
                    hash: self.hashes@[i],
                    mtime: self.mtimes@[i],
                    size: self.sizes@[i],
                    path: packed_at(self.path_offsets@, self.paths_blob@, i),
                },
        )
    }
}

/// An entry borrowed from an index.
pub struct IndexEntryRef<'a> {
    pub hash: &'a crate::hash::Hash,
    pub mtime: i64,
    pub size: u64,
    pub path: &'a str,
    pub mode: u32,
}

impl<'a> View for IndexEntryRef<'a> {
    type V = IndexEntryView;

    open spec fn view(&self) -> IndexEntryView {
        IndexEntryView {
            mode: self.mode,
            hash: *self.hash,
            mtime: self.mtime,
            size: self.size,
            path: self.path.spec_bytes(),
        }
    }
}

/// Walks the entries of an index in order.
pub struct IndexIter<'index> {
    pub mog_index: &'index Index,
    pub index: usize,
}

impl<'index> IndexIter<'index> {
    /// The index that is walked.
    pub open spec fn source(&self) -> &'index Index {
        self.mog_index
    }

    /// The position of the entry that `next` gives.
    pub open spec fn position(&self) -> usize {
        self.index
    }

    /// The next entry, or `None` after the last.
    pub fn next(&mut self) -> (r: Option<IndexEntryRef<'index>>)
        requires
            old(self).source().wf(),
        ensures
            final(self).source() == old(self).source(),
            match r {
                Some(e) => old(self).position() < old(self).source()@.len() && e@ == old(self).source()@[old(self).position() as int] && final(self).position() == old(self).position() + 1,
                None => old(self).position() >= old(self).source()@.len() && final(self).position() == old(self).position(),
            },
    {
        if self.index >= self.mog_index.count {
            return None;
        }
        let e = IndexEntryRef {
            mode: self.mog_index.modes[self.index],
            hash: &self.mog_index.hashes[self.index],
            mtime: self.mog_index.mtimes[self.index],
            size: self.mog_index.sizes[self.index],
            path: self.mog_index.get_path(self.index),
        };
        self.index += 1;
        Some(e)
    }
}

impl Index {
    /// The arrays hold `count` entries each, and the paths are a packing of
    /// well-formed strings.
    pub open spec fn arrays_ok(&self) -> bool {
        &&& self.count <= u32::MAX
        &&& self.modes@.len() == self.count
        &&& self.hashes@.len() == self.count
        &&& self.mtimes@.len() == self.count
        &&& self.sizes@.len() == self.count
        &&& self.path_offsets@.len() == self.count
        &&& packed_ok(self.path_offsets@, self.paths_blob@)
        &&& packed_utf8(self.path_offsets@, self.paths_blob@)
    }

    /// The paths of the entries, in order.
    pub open spec fn paths(&self) -> Seq<Seq<u8>> {
        unpack(self.path_offsets@, self.paths_blob@)
    }

    /// The lookup table indexes the paths.
    pub open spec fn table_ok(&self) -> bool {
        indexed(lists_of(self.path_index@), self.paths())
    }

    /// The index is well-formed: the arrays agree, no path occurs twice,
    /// and the lookup table indexes the paths.
    pub open spec fn wf(&self) -> bool {
        &&& self.arrays_ok()
        &&& paths_distinct(self.paths())
        &&& self.table_ok()
    }

    /// Whether one more entry with a path of `n` bytes fits: the count and
    /// the total length of the paths must stay within a `u32`.
    pub open spec fn has_room(&self, n: nat) -> bool {
        self.count < u32::MAX && self.paths_blob@.len() + n <= u32::MAX
    }

    /// The columns of a well-formed index are the columns of its entries.
    pub proof fn lemma_columns(&self)
        requires
            self.arrays_ok(),
        ensures
            index_modes(self@) == self.modes@,
            index_hashes(self@) == self.hashes@,
            index_mtimes(self@) == self.mtimes@,
            index_sizes(self@) == self.sizes@,
            index_paths(self@) == self.paths(),
            starts(index_paths(self@)) == self.path_offsets@,
            cat(index_paths(self@)) == self.paths_blob@,
            paths_distinct(self.paths()) ==> index_ok(self@),
    {
        assert(index_modes(self@) =~= self.modes@);
        assert(index_hashes(self@) =~= self.hashes@);
        assert(index_mtimes(self@) =~= self.mtimes@);
        assert(index_sizes(self@) =~= self.sizes@);
        assert(index_paths(self@) =~= self.paths());
        lemma_unpack_pack(self.path_offsets@, self.paths_blob@);
    }

    /// An index with no entries.
    pub fn new() -> (x: Self)
        ensures
            x.wf(),
            x@ == Seq::<IndexEntryView>::empty(),
    {
        let x = Index {
            count: 0,
            modes: Vec::new(),
            hashes: Vec::new(),
            mtimes: Vec::new(),
            sizes: Vec::new(),
            path_offsets: Vec::new(),
            paths_blob: Vec::new(),
            path_index: HashMap::new(),
        };
        assert(x@ =~= Seq::<IndexEntryView>::empty());
        x
    }

    /// Drops every entry.
    pub fn clear(&mut self)
        ensures
            final(self).wf(),
            final(self)@ == Seq::<IndexEntryView>::empty(),
    {
        self.count = 0;
        self.modes.clear();
        self.hashes.clear();
        self.mtimes.clear();
        self.sizes.clear();
        self.path_offsets.clear();
        self.paths_blob.clear();
        self.path_index.clear();
        assert(self@ =~= Seq::<IndexEntryView>::empty());
    }

    /// Path `i` of a packing of `count` well-formed paths.
    pub fn get_path_impl<'a>(
        count: usize,
        path_offsets: &[u32],
        paths_blob: &'a [u8],
        i: usize,
    ) -> (s: &'a str)
        requires
            count == path_offsets@.len(),
            packed_ok(path_offsets@, paths_blob@),
            packed_utf8(path_offsets@, paths_blob@),
            i < count,
        ensures
            s.spec_bytes() == packed_at(path_offsets@, paths_blob@, i as int),
    {
        let bytes = packed_get(path_offsets, paths_blob, i);
        assert(valid_utf8(packed_at(path_offsets@, paths_blob@, i as int)));
        str_from_utf8_data_shouldve_been_valid_or_we_got_hacked(bytes)
    }

    /// The path of entry `i`.
    pub fn get_path(&self, i: usize) -> (s: &str)
        requires
            self.arrays_ok(),
            i < self@.len(),
        ensures
            s.spec_bytes() == self@[i as int].path,
    {
        Self::get_path_impl(
            self.count,
            self.path_offsets.as_slice(),
            self.paths_blob.as_slice(),
            i,
        )
    }

    /// The position of the entry with this path, if there is one.
    pub fn find(&self, path: &str) -> (r: Option<usize>)
        requires
            self.wf(),
        ensures
            found_at(self@, path.spec_bytes(), r),
    {
        self.find_bytes(path.as_bytes())
    }

    /// The position of the entry whose path has these bytes, if there is
    /// one.
    pub fn find_bytes(&self, path: &[u8]) -> (r: Option<usize>)
        requires
            self.wf(),
        ensures
            found_at(self@, path@, r),
    {
        assert(self.paths().take(self.count as int) =~= self.paths());
        lookup_path(
            &self.path_index,
            self.path_offsets.as_slice(),
            self.paths_blob.as_slice(),
            path,
            Ghost(self.count as int),
        )
    }

    /// Whether the file behind entry `i` may have changed: its
    /// modification time or its size differs from what the index holds.
    pub fn is_dirty<M: FileStat>(&self, i: usize, metadata: &M) -> (r: bool)
        requires
            self.arrays_ok(),
            i < self@.len(),
        ensures
            r == (self@[i as int].mtime != metadata.spec_mtime() || self@[i as int].size
                != metadata.spec_size()),
    {
        self.mtimes[i] != metadata.mtime() || self.sizes[i] != metadata.size()
    }

    /// An iterator at the first entry.
    pub fn iter(&self) -> (it: IndexIter<'_>)
        ensures
            it.source() == self,
            it.position() == 0,
    {
        IndexIter { mog_index: self, index: 0 }
    }

    /// Whether an entry with this path can be added: the path is there
    /// already, or one more entry with it fits.
    pub fn can_add(&self, path: &str) -> (r: bool)
        requires
            self.wf(),
        ensures
            r == takes_entry(self@, path.spec_bytes()),
    {
        proof {
            self.lemma_columns();
        }
        match self.find(path) {
            Some(i) => {
                assert(self@[i as int].path == path.spec_bytes());
                true
            },
            None => self.count < u32::MAX as usize && path.as_bytes().len() <= u32::MAX as usize
                - self.paths_blob.len(),
        }
    }

    /// Stages `path` with this hash and stat data: in the place of the
    /// entry of that path, or as a new entry behind the others.
    pub fn add<M: FileStat>(&mut self, path: &str, hash: crate::hash::Hash, meta: &M)
        requires
            old(self).wf(),
            takes_entry(old(self)@, path.spec_bytes()),
        ensures
            final(self).wf(),
            added(
                old(self)@,
                IndexEntryView {
                    mode: mode_of(meta.spec_executable()),
                    hash,
                    mtime: meta.spec_mtime(),
                    size: meta.spec_size(),
                    path: path.spec_bytes(),
                },
                final(self)@,
            ),
    {
        let mtime = meta.mtime();
        let mode = if meta.is_executable() { MODE_EXEC } else { MODE_FILE };
        let size = meta.size();
        let ghost e = IndexEntryView { mode, hash, mtime, size, path: path.spec_bytes() };
        proof {
            self.lemma_columns();
        }
        match self.find(path) {
            Some(i) => {
                self.modes.set(i, mode);
                self.hashes.set(i, hash);
                self.mtimes.set(i, mtime);
                self.sizes.set(i, size);
                proof {
                    assert(old(self)@[i as int].path == e.path);
                    assert(self@ =~= old(self)@.update(i as int, e));
                }
            },
            None => {
                let ghost offs = self.path_offsets@;
                let ghost blob = self.paths_blob@;
                let bytes = path.as_bytes();
                proof {
                    encode_utf8_valid_utf8(path@);
                    lemma_packed_push(offs, blob, bytes@);
                    lemma_indexed_push(lists_of(self.path_index@), self.paths(), bytes@);
                }
                let h = path_hash(bytes);
                self.modes.push(mode);
                self.hashes.push(hash);
                self.mtimes.push(mtime);
                self.sizes.push(size);
                self.path_offsets.push(self.paths_blob.len() as u32);
                self.paths_blob.extend_from_slice(bytes);
                table_add(&mut self.path_index, h, self.count);
                self.count = self.count + 1;
                proof {
                    assert(self.paths_blob@ =~= blob + bytes@);
                    lemma_pushed(offs, blob, bytes@);
                    assert forall|i: int, j: int|
                        0 <= i < j < self.paths().len() implies self.paths()[i]
                        != self.paths()[j] by {
                        if j < offs.len() {
                            assert(unpack(offs, blob)[i] != unpack(offs, blob)[j]);
                        } else {
                            assert(old(self)@[i].path == unpack(offs, blob)[i]);
                        }
                    }
                    assert forall|i: int| 0 <= i < self@.len() implies self@[i] == old(self)@.push(
                        e,
                    )[i] by {
                        assert(self.paths()[i] == packed_at(
                            self.path_offsets@,
                            self.paths_blob@,
                            i,
                        ));
                        if i < offs.len() {
                            assert(unpack(offs, blob)[i] == packed_at(offs, blob, i));
                        }
                    }
                    assert(self@ =~= old(self)@.push(e));
                }
            },
        }
    }

    /// Unstages `path`, and says whether it was staged. The entries behind
    /// it move up by one.
    pub fn remove(&mut self, path: &str) -> (r: bool)
        requires
            old(self).wf(),
        ensures
            final(self).wf(),
            removed(old(self)@, path.spec_bytes(), final(self)@, r),
    {
        let i = match self.find(path) {
            Some(i) => i,
            None => {
                return false;
            },
        };
        let ghost names = self.paths();
        self.modes.remove(i);
        self.hashes.remove(i);
        self.mtimes.remove(i);
        self.sizes.remove(i);
        let (offsets, blob) = packed_without(
            self.path_offsets.as_slice(),
            self.paths_blob.as_slice(),
            i,
        );
        self.path_offsets = offsets;
        self.paths_blob = blob;
        self.count = self.count - 1;
        proof {
            assert(self.paths() == names.remove(i as int));
            assert forall|a: int, b: int| 0 <= a < b < self.paths().len() implies self.paths()[a]
                != self.paths()[b] by {
                let a0 = if a < i { a } else { a + 1 };
                let b0 = if b < i { b } else { b + 1 };
                assert(names[a0] != names[b0]);
            }
        }
        let ok = self.build_path_index();
        proof {
            assert(old(self)@[i as int].path == path.spec_bytes());
            assert forall|k: int| 0 <= k < self@.len() implies self@[k] == old(self)@.remove(
                i as int,
            )[k] by {
                assert(self.paths()[k] == packed_at(self.path_offsets@, self.paths_blob@, k));
                let k0 = if k < i { k } else { k + 1 };
                assert(names[k0] == packed_at(old(self).path_offsets@, old(self).paths_blob@, k0));
            }
            assert(self@ =~= old(self)@.remove(i as int));
        }
        true
    }

    /// Builds the lookup table anew from the paths, and says whether no
    /// path occurs twice. Where one does, the table is left unfinished.
    fn build_path_index(&mut self) -> (ok: bool)
        requires
            old(self).arrays_ok(),
        ensures
            final(self).arrays_ok(),
            final(self)@ == old(self)@,
            final(self).paths() == old(self).paths(),
            final(self).count == old(self).count,
            final(self).modes == old(self).modes,
            final(self).hashes == old(self).hashes,
            final(self).mtimes == old(self).mtimes,
            final(self).sizes == old(self).sizes,
            final(self).path_offsets == old(self).path_offsets,
            final(self).paths_blob == old(self).paths_blob,
            ok == paths_distinct(old(self).paths()),
            ok ==> final(self).wf(),
    {
        self.path_index.clear();
        let n = self.count;
        let ghost paths = self.paths();
        let mut i: usize = 0;
        assert(paths.take(0) =~= Seq::<Seq<u8>>::empty());
        while i < n
            invariant
                i <= n,
                n == self.count,
                self.arrays_ok(),
                self@ == old(self)@,
                self.count == old(self).count,
                self.modes == old(self).modes,
                self.hashes == old(self).hashes,
                self.mtimes == old(self).mtimes,
                self.sizes == old(self).sizes,
                self.path_offsets == old(self).path_offsets,
                self.paths_blob == old(self).paths_blob,
                paths == self.paths(),
                paths == old(self).paths(),
                indexed(lists_of(self.path_index@), paths.take(i as int)),
                paths_distinct(paths.take(i as int)),
            decreases n - i,
        {
            let p = packed_get(self.path_offsets.as_slice(), self.paths_blob.as_slice(), i);
            let found = lookup_path(
                &self.path_index,
                self.path_offsets.as_slice(),
                self.paths_blob.as_slice(),
                p,
                Ghost(i as int),
            );
            if found.is_some() {
                proof {
                    let j = found->0 as int;
                    assert(paths[j] == paths[i as int]);
                }
                return false;
            }
            proof {
                lemma_indexed_push(lists_of(self.path_index@), paths.take(i as int), p@);
                assert(paths.take(i + 1) =~= paths.take(i as int).push(p@));
                let t = paths.take(i + 1);
                assert forall|a: int, b: int| 0 <= a < b < t.len() implies t[a] != t[b] by {
                    if b < i {
                        assert(paths.take(i as int)[a] != paths.take(i as int)[b]);
                    } else {
                        assert(packed_at(self.path_offsets@, self.paths_blob@, a) != p@);
                    }
                }
            }
            let h = path_hash(p);
            table_add(&mut self.path_index, h, i);
            i += 1;
        }
        assert(paths.take(n as int) =~= paths);
        true
    }
}

/// After a string is pushed onto a packing, the strings are the old ones
/// and the new one.
pub proof fn lemma_pushed(offsets: Seq<u32>, blob: Seq<u8>, s: Seq<u8>)
    requires
        packed_ok(offsets, blob),
        packed_utf8(offsets, blob),
        valid_utf8(s),
        blob.len() + s.len() <= u32::MAX,
    ensures
        packed_ok(offsets.push(blob.len() as u32), blob + s),
        packed_utf8(offsets.push(blob.len() as u32), blob + s),
        unpack(offsets.push(blob.len() as u32), blob + s) == unpack(offsets, blob).push(s),
{
    lemma_packed_push(offsets, blob, s);
    let offs2 = offsets.push(blob.len() as u32);
    let blob2 = blob + s;
    assert forall|i: int| 0 <= i < offs2.len() implies valid_utf8(
        #[trigger] packed_at(offs2, blob2, i),
    ) by {
        assert(unpack(offs2, blob2)[i] == packed_at(offs2, blob2, i));
        if i < offsets.len() {
            assert(unpack(offsets, blob)[i] == packed_at(offsets, blob, i));
            assert(valid_utf8(packed_at(offsets, blob, i)));
        }
    }
}

/// The packing without string `i`.
#[verifier::spinoff_prover]
#[verifier::rlimit(60)]
pub fn packed_without(offsets: &[u32], blob: &[u8], i: usize) -> (r: (Vec<u32>, Vec<u8>))
    requires
        packed_ok(offsets@, blob@),
        packed_utf8(offsets@, blob@),
        i < offsets@.len(),
    ensures
        packed_ok(r.0@, r.1@),
        packed_utf8(r.0@, r.1@),
        unpack(r.0@, r.1@) == unpack(offsets@, blob@).remove(i as int),
{
    let ghost names = unpack(offsets@, blob@);
    let n = offsets.len();
    let mut new_offsets: Vec<u32> = Vec::new();
    let mut new_blob: Vec<u8> = Vec::new();
    let mut j: usize = 0;
    proof {
        lemma_unpack_pack(offsets@, blob@);
        assert(names.take(0) =~= Seq::<Seq<u8>>::empty());
        assert(unpack(new_offsets@, new_blob@) =~= Seq::<Seq<u8>>::empty());
    }
    while j < n
        invariant
            j <= n,
            n == offsets@.len(),
            i < n,
            names == unpack(offsets@, blob@),
            cat(names) == blob@,
            packed_ok(offsets@, blob@),
            packed_utf8(offsets@, blob@),
            packed_ok(new_offsets@, new_blob@),
            packed_utf8(new_offsets@, new_blob@),
            new_blob@.len() <= cat(names.take(j as int)).len(),
            unpack(new_offsets@, new_blob@) == if j <= i {
                names.take(j as int)
            } else {
                names.take(j as int).remove(i as int)
            },
        decreases n - j,
    {
        proof {
            lemma_cat_take(names, j as int);
            lemma_cat_take(names, j + 1);
        }
        if j != i {
            let p = packed_get(offsets, blob, j);
            proof {
                assert(names[j as int] == p@);
                assert(valid_utf8(packed_at(offsets@, blob@, j as int)));
                lemma_pushed(new_offsets@, new_blob@, p@);
            }
            let ghost prev = unpack(new_offsets@, new_blob@);
            let ghost prev_blob = new_blob@;
            new_offsets.push(new_blob.len() as u32);
            new_blob.extend_from_slice(p);
            proof {
                assert(new_blob@ =~= prev_blob + p@);
                if j < i {
                    assert(names.take(j + 1) =~= names.take(j as int).push(p@));
                } else {
                    assert(names.take(j + 1).remove(i as int) =~= names.take(j as int).remove(
                        i as int,
                    ).push(p@));
                }
            }
        } else {
            proof {
                assert(names.take(j + 1).remove(i as int) =~= names.take(j as int));
            }
        }
        j += 1;
    }
    proof {
        assert(names.take(n as int) =~= names);
    }
    (new_offsets, new_blob)
}

/// An index body read from the front of a buffer, field by field, agrees
/// with any entries whose body the buffer starts with. The first `k` fields
/// have been read: the count `n`, the modes, the hashes, the modification
/// times, the sizes, the path offsets, the blob length `l` and the blob,
/// each followed by the bytes `r1` to `r8`.
pub proof fn lemma_index_fields(
    s: Seq<IndexEntryView>,
    tail: Seq<u8>,
    rest0: Seq<u8>,
    k: int,
    n: u32,
    r1: Seq<u8>,
    modes: Seq<u32>,
    r2: Seq<u8>,
    hashes: Seq<crate::hash::Hash>,
    r3: Seq<u8>,
    mtimes: Seq<i64>,
    r4: Seq<u8>,
    sizes: Seq<u64>,
    r5: Seq<u8>,
    offsets: Seq<u32>,
    r6: Seq<u8>,
    l: u32,
    r7: Seq<u8>,
    blob: Seq<u8>,
    r8: Seq<u8>,
)
    requires
        index_ok(s),
        rest0 == index_body(s) + tail,
        k >= 1 ==> rest0 == u32_le(n) + r1,
        k >= 2 ==> modes.len() == n && r1 == column(modes, enc_u32()) + r2,
        k >= 3 ==> hashes.len() == n && r2 == column(hashes, enc_hash()) + r3,
        k >= 4 ==> mtimes.len() == n && r3 == column(mtimes, enc_i64()) + r4,
        k >= 5 ==> sizes.len() == n && r4 == column(sizes, enc_u64()) + r5,
        k >= 6 ==> offsets.len() == n && r5 == column(offsets, enc_u32()) + r6,
        k >= 7 ==> r6 == u32_le(l) + r7,
        k >= 8 ==> blob.len() == l && r7 == blob + r8,
    ensures
        rest0.len() >= 4,
        k >= 1 ==> n == s.len() && r1.len() >= 4 * n,
        k >= 2 ==> modes == index_modes(s) && r2.len() >= 32 * n,
        k >= 3 ==> hashes == index_hashes(s) && r3.len() >= 8 * n,
        k >= 4 ==> mtimes == index_mtimes(s) && r4.len() >= 8 * n,
        k >= 5 ==> sizes == index_sizes(s) && r5.len() >= 4 * n,
        k >= 6 ==> offsets == starts(index_paths(s)) && r6.len() >= 4,
        k >= 7 ==> l == cat(index_paths(s)).len() && r7.len() >= l,
        k >= 8 ==> blob == cat(index_paths(s)) && r8 == tail,
{
    lemma_int_le();
    lemma_encoders();
    let paths = index_paths(s);
    lemma_column_len(index_modes(s), enc_u32(), 4);
    lemma_column_len(index_hashes(s), enc_hash(), 32);
    lemma_column_len(index_mtimes(s), enc_i64(), 8);
    lemma_column_len(index_sizes(s), enc_u64(), 8);
    lemma_column_len(starts(paths), enc_u32(), 4);
    let q7 = cat(paths) + tail;
    let q6 = u32_le(cat(paths).len() as u32) + q7;
    let q5 = column(starts(paths), enc_u32()) + q6;
    let q4 = column(index_sizes(s), enc_u64()) + q5;
    let q3 = column(index_mtimes(s), enc_i64()) + q4;
    let q2 = column(index_hashes(s), enc_hash()) + q3;
    let q1 = column(index_modes(s), enc_u32()) + q2;
    assert(index_body(s) + tail =~= u32_le(s.len() as u32) + q1);
    if k >= 1 {
        lemma_u32_le_injective(n, s.len() as u32, r1, q1);
    }
    if k >= 2 {
        lemma_column_injective(modes, r2, index_modes(s), q2, enc_u32(), 4);
    }
    if k >= 3 {
        lemma_column_injective(hashes, r3, index_hashes(s), q3, enc_hash(), 32);
    }
    if k >= 4 {
        lemma_column_injective(mtimes, r4, index_mtimes(s), q4, enc_i64(), 8);
    }
    if k >= 5 {
        lemma_column_injective(sizes, r5, index_sizes(s), q5, enc_u64(), 8);
    }
    if k >= 6 {
        lemma_column_injective(offsets, r6, starts(paths), q6, enc_u32(), 4);
    }
    if k >= 7 {
        lemma_u32_le_injective(l, cat(paths).len() as u32, r7, q7);
    }
    if k >= 8 {
        lemma_split_at(blob, r8, cat(paths), tail);
    }
}

/// A buffer whose fields were read as in `lemma_index_fields` up to field
/// `k`, where the next field cannot be read, bytes are left over, or the
/// paths are no packing of well-formed, distinct strings, is the body of
/// no index.
pub proof fn lemma_index_unreadable(
    rest0: Seq<u8>,
    k: int,
    n: u32,
    r1: Seq<u8>,
    modes: Seq<u32>,
    r2: Seq<u8>,
    hashes: Seq<crate::hash::Hash>,
    r3: Seq<u8>,
    mtimes: Seq<i64>,
    r4: Seq<u8>,
    sizes: Seq<u64>,
    r5: Seq<u8>,
    offsets: Seq<u32>,
    r6: Seq<u8>,
    l: u32,
    r7: Seq<u8>,
    blob: Seq<u8>,
    r8: Seq<u8>,
)
    requires
        0 <= k <= 8,
        k >= 1 ==> rest0 == u32_le(n) + r1,
        k >= 2 ==> modes.len() == n && r1 == column(modes, enc_u32()) + r2,
        k >= 3 ==> hashes.len() == n && r2 == column(hashes, enc_hash()) + r3,
        k >= 4 ==> mtimes.len() == n && r3 == column(mtimes, enc_i64()) + r4,
        k >= 5 ==> sizes.len() == n && r4 == column(sizes, enc_u64()) + r5,
        k >= 6 ==> offsets.len() == n && r5 == column(offsets, enc_u32()) + r6,
        k >= 7 ==> r6 == u32_le(l) + r7,
        k >= 8 ==> blob.len() == l && r7 == blob + r8,
        k == 0 ==> rest0.len() < 4,
        k == 1 ==> r1.len() < 4 * n,
        k == 2 ==> r2.len() < 32 * n,
        k == 3 ==> r3.len() < 8 * n,
        k == 4 ==> r4.len() < 8 * n,
        k == 5 ==> r5.len() < 4 * n,
        k == 6 ==> r6.len() < 4,
        k == 7 ==> r7.len() < l,
        k == 8 ==> r8.len() > 0 || !packed_ok(offsets, blob) || !packed_utf8(offsets, blob)
            || !paths_distinct(unpack(offsets, blob)),
    ensures
        forall|s: Seq<IndexEntryView>| index_ok(s) ==> rest0 != #[trigger] index_body(s),
{
    let e = Seq::<u8>::empty();
    assert forall|s: Seq<IndexEntryView>| index_ok(s) implies rest0 != #[trigger] index_body(s) by {
        if rest0 == index_body(s) {
            assert(index_body(s) + e =~= index_body(s));
            lemma_index_fields(
                s,
                e,
                rest0,
                k,
                n,
                r1,
                modes,
                r2,
                hashes,
                r3,
                mtimes,
                r4,
                sizes,
                r5,
                offsets,
                r6,
                l,
                r7,
                blob,
                r8,
            );
            if k == 8 {
                lemma_pack_unpack(index_paths(s));
                assert forall|i: int| 0 <= i < offsets.len() implies valid_utf8(
                    #[trigger] packed_at(offsets, blob, i),
                ) by {
                    assert(unpack(offsets, blob)[i] == index_paths(s)[i]);
                    assert(valid_utf8(s[i].path));
                }
            }
        }
    }
}

/// Entries are determined by their index file.
pub proof fn lemma_index_bytes_injective(a: Seq<IndexEntryView>, b: Seq<IndexEntryView>)
    requires
        index_ok(a),
        index_ok(b),
        index_bytes(a) == index_bytes(b),
    ensures
        a == b,
{
    lemma_int_le();
    lemma_split_at(index_header(), index_body(a), index_header(), index_body(b));
    let e = Seq::<u8>::empty();
    let paths = index_paths(b);
    let r8 = e;
    let r7 = cat(paths) + r8;
    let r6 = u32_le(cat(paths).len() as u32) + r7;
    let r5 = column(starts(paths), enc_u32()) + r6;
    let r4 = column(index_sizes(b), enc_u64()) + r5;
    let r3 = column(index_mtimes(b), enc_i64()) + r4;
    let r2 = column(index_hashes(b), enc_hash()) + r3;
    let r1 = column(index_modes(b), enc_u32()) + r2;
    assert(index_body(b) =~= u32_le(b.len() as u32) + r1);
    assert(index_body(a) + e =~= index_body(a));
    lemma_index_fields(
        a,
        e,
        index_body(a),
        8,
        b.len() as u32,
        r1,
        index_modes(b),
        r2,
        index_hashes(b),
        r3,
        index_mtimes(b),
        r4,
        index_sizes(b),
        r5,
        starts(paths),
        r6,
        cat(paths).len() as u32,
        r7,
        cat(paths),
        r8,
    );
    lemma_pack_unpack(index_paths(a));
    lemma_pack_unpack(index_paths(b));
    assert(index_paths(a) == index_paths(b));
    assert forall|i: int| 0 <= i < a.len() implies a[i] == b[i] by {
        assert(index_modes(a)[i] == index_modes(b)[i]);
        assert(index_hashes(a)[i] == index_hashes(b)[i]);
        assert(index_mtimes(a)[i] == index_mtimes(b)[i]);
        assert(index_sizes(a)[i] == index_sizes(b)[i]);
        assert(index_paths(a)[i] == index_paths(b)[i]);
    }
    assert(a =~= b);
}

/// A buffer whose fields were read one after the other, up to its end, and
/// make up the arrays of an index, is the body of that index.
#[verifier::spinoff_prover]
#[verifier::rlimit(100)]
pub proof fn lemma_index_readable(
    x: Index,
    rest0: Seq<u8>,
    r1: Seq<u8>,
    r2: Seq<u8>,
    r3: Seq<u8>,
    r4: Seq<u8>,
    r5: Seq<u8>,
    r6: Seq<u8>,
    r7: Seq<u8>,
)
    requires
        x.arrays_ok(),
        rest0 == u32_le(x.count as u32) + r1,
        r1 == column(x.modes@, enc_u32()) + r2,
        r2 == column(x.hashes@, enc_hash()) + r3,
        r3 == column(x.mtimes@, enc_i64()) + r4,
        r4 == column(x.sizes@, enc_u64()) + r5,
        r5 == column(x.path_offsets@, enc_u32()) + r6,
        r6 == u32_le(x.paths_blob@.len() as u32) + r7,
        r7 == x.paths_blob@,
    ensures
        rest0 == index_body(x@),
{
    x.lemma_columns();
    assert(rest0 =~= index_body(x@));
}

/// Reads the magic and the version off the front of an index file, and
/// returns what follows them.
fn read_index_header<'a>(data: &'a [u8]) -> (r: Option<&'a [u8]>)
    ensures
        match r {
            Some(body) => data@ == index_header() + body@,
            None => forall|body: Seq<u8>| data@ != #[trigger] (index_header() + body),
        },
{
    let ghost magic = seq![0x4du8, 0x4fu8, 0x47u8, 0x47u8];
    proof {
        lemma_int_le();
    }
    if data.len() < 8 {
        assert forall|body: Seq<u8>| data@ != #[trigger] (index_header() + body) by {
            assert((index_header() + body).len() >= 8);
        }
        return None;
    }
    if data[0] != 0x4d || data[1] != 0x4f || data[2] != 0x47 || data[3] != 0x47 {
        assert forall|body: Seq<u8>| data@ != #[trigger] (index_header() + body) by {
            let f = index_header() + body;
            assert(f[0] == 0x4d && f[1] == 0x4f && f[2] == 0x47 && f[3] == 0x47);
        }
        return None;
    }
    let mut r = ReadCursor::new(slice_subrange(data, 4, data.len()));
    let ghost after_magic = r.rest();
    assert(data@ =~= magic + after_magic);
    match r.read_u32() {
        Ok(version) => {
            if version != INDEX_VERSION {
                assert forall|body: Seq<u8>| data@ != #[trigger] (index_header() + body) by {
                    if data@ == index_header() + body {
                        assert(index_header() + body =~= magic + (u32_le(INDEX_VERSION) + body));
                        lemma_split_at(magic, after_magic, magic, u32_le(INDEX_VERSION) + body);
                        lemma_u32_le_injective(version, INDEX_VERSION, r.rest(), body);
                    }
                }
                return None;
            }
            let body = r.remaining();
            assert(data@ =~= index_header() + body@);
            Some(body)
        },
        Err(_) => {
            assert(false);
            None
        },
    }
}

impl Index {
    /// The index file of the entries.
    pub fn encode(&self) -> (buf: Vec<u8>)
        requires
            self.wf(),
        ensures
            buf@ == index_bytes(self@),
            index_ok(self@),
    {
        let mut buf: Vec<u8> = Vec::new();
        buf.push(0x4d);
        buf.push(0x4f);
        buf.push(0x47);
        buf.push(0x47);
        let ghost magic = buf@;
        let mut w = WriteCursor::new(&mut buf);
        w.write_u32(INDEX_VERSION);
        assert(w.written() =~= index_header());
        w.write_u32(self.count as u32);
        let ghost a1 = w.written();
        write_u32s(&mut w, self.modes.as_slice());
        write_hashes(&mut w, self.hashes.as_slice());
        write_i64s(&mut w, self.mtimes.as_slice());
        write_u64s(&mut w, self.sizes.as_slice());
        write_u32s(&mut w, self.path_offsets.as_slice());
        w.write_u32(self.paths_blob.len() as u32);
        w.write_slice(self.paths_blob.as_slice());
        proof {
            self.lemma_columns();
            assert(w.written() =~= index_bytes(self@));
        }
        buf
    }

    /// Decodes an index file. It succeeds exactly when `data` is the index
    /// file of some entries, and returns the index of those entries; anything
    /// else is `CorruptIndex`.
    #[verifier::spinoff_prover]
    pub fn decode(data: &[u8]) -> (res: Result<Index, Error>)
        ensures
            match res {
                Ok(x) => x.wf() && data@ == index_bytes(x@),
                Err(e) => e == Error::CorruptIndex && forall|s: Seq<IndexEntryView>|
                    index_ok(s) ==> data@ != #[trigger] index_bytes(s),
            },
    {
        let body = match read_index_header(data) {
            Some(b) => b,
            None => {
                return Err(Error::CorruptIndex);
            },
        };
        match Index::decode_body(body) {
            Ok(x) => Ok(x),
            Err(e) => {
                proof {
                    assert forall|s: Seq<IndexEntryView>| index_ok(s) implies data@
                        != #[trigger] index_bytes(s) by {
                        if data@ == index_bytes(s) {
                            lemma_split_at(index_header(), body@, index_header(), index_body(s));
                        }
                    }
                }
                Err(e)
            },
        }
    }

    /// Decodes what follows the header of an index file.
    #[verifier::spinoff_prover]
    fn decode_body(body: &[u8]) -> (res: Result<Index, Error>)
        ensures
            match res {
                Ok(x) => x.wf() && body@ == index_body(x@),
                Err(e) => e == Error::CorruptIndex && forall|s: Seq<IndexEntryView>|
                    index_ok(s) ==> body@ != #[trigger] index_body(s),
            },
    {
        let mut r = ReadCursor::new(body);
        let ghost rest0 = r.rest();
        let ghost e0 = Seq::<u8>::empty();
        let ghost u0 = Seq::<u32>::empty();
        let ghost h0 = Seq::<crate::hash::Hash>::empty();
        let ghost i0 = Seq::<i64>::empty();
        let ghost s0 = Seq::<u64>::empty();
        let n = match r.read_u32() {
            Ok(n) => n,
            Err(_) => {
                proof {
                    lemma_index_unreadable(rest0, 0, 0, e0, u0, e0, h0, e0, i0, e0, s0, e0, u0, e0, 0, e0, e0, e0);
                }
                return Err(Error::CorruptIndex);
            },
        };
        let ghost r1 = r.rest();
        let modes = match read_u32s(&mut r, n as usize) {
            Ok(v) => v,
            Err(_) => {
                proof {
                    lemma_index_unreadable(rest0, 1, n, r1, u0, e0, h0, e0, i0, e0, s0, e0, u0, e0, 0, e0, e0, e0);
                }
                return Err(Error::CorruptIndex);
            },
        };
        let ghost r2 = r.rest();
        let hashes = match read_hashes(&mut r, n as usize) {
            Ok(v) => v,
            Err(_) => {
                proof {
                    lemma_index_unreadable(rest0, 2, n, r1, modes@, r2, h0, e0, i0, e0, s0, e0, u0, e0, 0, e0, e0, e0);
                }
                return Err(Error::CorruptIndex);
            },
        };
        let ghost r3 = r.rest();
        let mtimes = match read_i64s(&mut r, n as usize) {
            Ok(v) => v,
            Err(_) => {
                proof {
                    lemma_index_unreadable(rest0, 3, n, r1, modes@, r2, hashes@, r3, i0, e0, s0, e0, u0, e0, 0, e0, e0, e0);
                }
                return Err(Error::CorruptIndex);
            },
        };
        let ghost r4 = r.rest();
        let sizes = match read_u64s(&mut r, n as usize) {
            Ok(v) => v,
            Err(_) => {
                proof {
                    lemma_index_unreadable(rest0, 4, n, r1, modes@, r2, hashes@, r3, mtimes@, r4, s0, e0, u0, e0, 0, e0, e0, e0);
                }
                return Err(Error::CorruptIndex);
            },
        };
        let ghost r5 = r.rest();
        let offsets = match read_u32s(&mut r, n as usize) {
            Ok(v) => v,
            Err(_) => {
                proof {
                    lemma_index_unreadable(rest0, 5, n, r1, modes@, r2, hashes@, r3, mtimes@, r4, sizes@, r5, u0, e0, 0, e0, e0, e0);
                }
                return Err(Error::CorruptIndex);
            },
        };
        let ghost r6 = r.rest();
        let l = match r.read_u32() {
            Ok(l) => l,
            Err(_) => {
                proof {
                    lemma_index_unreadable(rest0, 6, n, r1, modes@, r2, hashes@, r3, mtimes@, r4, sizes@, r5, offsets@, r6, 0, e0, e0, e0);
                }
                return Err(Error::CorruptIndex);
            },
        };
        let ghost r7 = r.rest();
        let blob = match r.read_bytes(l as usize) {
            Ok(b) => b,
            Err(_) => {
                proof {
                    lemma_index_unreadable(rest0, 7, n, r1, modes@, r2, hashes@, r3, mtimes@, r4, sizes@, r5, offsets@, r6, l, r7, e0, e0);
                }
                return Err(Error::CorruptIndex);
            },
        };
        let ghost r8 = r.rest();
        if !r.at_end() || !check_packed(offsets.as_slice(), blob) || !check_packed_utf8(
            offsets.as_slice(),
            blob,
        ) {
            proof {
                lemma_index_unreadable(rest0, 8, n, r1, modes@, r2, hashes@, r3, mtimes@, r4, sizes@, r5, offsets@, r6, l, r7, blob@, r8);
            }
            return Err(Error::CorruptIndex);
        }
        let mut x = Index {
            count: n as usize,
            modes,
            hashes,
            mtimes,
            sizes,
            path_offsets: offsets,
            paths_blob: slice_to_vec(blob),
            path_index: HashMap::new(),
        };
        if !x.build_path_index() {
            proof {
                lemma_index_unreadable(rest0, 8, n, r1, modes@, r2, hashes@, r3, mtimes@, r4, sizes@, r5, offsets@, r6, l, r7, blob@, r8);
            }
            return Err(Error::CorruptIndex);
        }
        proof {
            assert(r8 =~= e0);
            assert(blob@ + r8 =~= blob@);
            assert(x.count as u32 == n);
            assert(x.paths_blob@.len() as u32 == l);
            lemma_index_readable(x, rest0, r1, r2, r3, r4, r5, r6, r7);
        }
        Ok(x)
    }
}

/// The entries are in the byte-wise order of their paths.
pub open spec fn sorted_by_path(t: Seq<IndexEntryView>) -> bool {
    forall|i: int, j: int| 0 <= i < j < t.len() ==> lex_le(t[i].path, t[j].path)
}

/// The entries of `m` in the order of their paths.
pub open spec fn sorted_staging(m: Multiset<IndexEntryView>) -> Seq<IndexEntryView> {
    choose|t: Seq<IndexEntryView>| t.to_multiset() == m && sorted_by_path(t)
}

/// What the staged entries are built to: the root directory, built from
/// the entries in the order of their paths.
pub open spec fn root_built(s: Seq<IndexEntryView>) -> Built {
    let t = sorted_staging(s.to_multiset());
    built(index_paths(t), index_modes(t), index_hashes(t), 0, Seq::empty())
}

/// The hash of the root tree of the staged entries. It depends on which
/// entries are staged, and not on the order in which they were added.
pub open spec fn root_hash(s: Seq<IndexEntryView>) -> crate::hash::Hash {
    tree_hash(root_built(s).entries)
}

/// Entries with distinct paths that are sorted by path are determined by
/// which entries they are.
pub proof fn lemma_sorted_staging_unique(x: Seq<IndexEntryView>, y: Seq<IndexEntryView>)
    requires
        x.to_multiset() == y.to_multiset(),
        sorted_by_path(x),
        sorted_by_path(y),
        paths_distinct(index_paths(x)),
    ensures
        x == y,
    decreases x.len(),
{
    broadcast use vstd::multiset::group_multiset_axioms;
    broadcast use vstd::seq_lib::group_to_multiset_ensures;

    vstd::seq_lib::to_multiset_len(x);
    vstd::seq_lib::to_multiset_len(y);
    if x.len() == 0 {
        assert(x =~= y);
    } else {
        assert(x.to_multiset().contains(x[0]));
        assert(y.to_multiset().contains(y[0]));
        assert(y.contains(x[0]));
        assert(x.contains(y[0]));
        let i = choose|i: int| 0 <= i < x.len() && x[i] == y[0];
        let j = choose|j: int| 0 <= j < y.len() && y[j] == x[0];
        if i > 0 {
            assert(lex_le(x[0].path, x[i].path));
            if j > 0 {
                assert(lex_le(y[0].path, y[j].path));
            }
            crate::util::lemma_lex_lt_total(x[0].path, x[i].path);
            assert(index_paths(x)[0] != index_paths(x)[i]);
            assert(false);
        }
        assert(x[0] == y[0]);
        let xs = x.drop_first();
        let ys = y.drop_first();
        vstd::seq_lib::to_multiset_remove(x, 0);
        vstd::seq_lib::to_multiset_remove(y, 0);
        assert(xs =~= x.remove(0));
        assert(ys =~= y.remove(0));
        assert(xs.to_multiset() =~= x.to_multiset().remove(x[0]));
        assert(ys.to_multiset() =~= y.to_multiset().remove(y[0]));
        assert forall|a: int, b: int| 0 <= a < b < xs.len() implies lex_le(
            xs[a].path,
            xs[b].path,
        ) by {
            assert(lex_le(x[a + 1].path, x[b + 1].path));
        }
        assert forall|a: int, b: int| 0 <= a < b < ys.len() implies lex_le(
            ys[a].path,
            ys[b].path,
        ) by {
            assert(lex_le(y[a + 1].path, y[b + 1].path));
        }
        assert forall|a: int, b: int| 0 <= a < b < index_paths(xs).len() implies index_paths(
            xs,
        )[a] != index_paths(xs)[b] by {
            assert(index_paths(x)[a + 1] != index_paths(x)[b + 1]);
        }
        lemma_sorted_staging_unique(xs, ys);
        assert(x =~= seq![x[0]] + xs);
        assert(y =~= seq![y[0]] + ys);
    }
}

/// The positions `0` to `n - 1` are distinct.
pub proof fn lemma_iota_distinct(n: nat)
    requires
        n <= usize::MAX,
    ensures
        crate::sort::iota(n).no_duplicates(),
{
    assert forall|a: int, b: int|
        0 <= a < crate::sort::iota(n).len() && 0 <= b < crate::sort::iota(n).len() && a
            != b implies crate::sort::iota(n)[a] != crate::sort::iota(n)[b] by {
        assert(crate::sort::iota(n)[a] == a as usize);
        assert(crate::sort::iota(n)[b] == b as usize);
    }
}

/// The entries of an index, taken in an order that holds every position
/// once, are the entries of the index.
pub proof fn lemma_reordered(s: Seq<IndexEntryView>, order: Seq<usize>, t: Seq<IndexEntryView>)
    requires
        s.len() <= usize::MAX,
        paths_distinct(index_paths(s)),
        order.to_multiset() == crate::sort::iota(s.len()).to_multiset(),
        crate::sort::all_below(order, s.len() as int),
        t.len() == order.len(),
        forall|k: int| 0 <= k < t.len() ==> t[k] == s[order[k] as int],
    ensures
        t.to_multiset() == s.to_multiset(),
{
    broadcast use vstd::multiset::group_multiset_axioms;
    broadcast use vstd::seq_lib::group_to_multiset_ensures;

    let n = s.len();
    vstd::seq_lib::to_multiset_len(order);
    vstd::seq_lib::to_multiset_len(crate::sort::iota(n));
    assert forall|a: int, b: int|
        0 <= a < crate::sort::iota(n).len() && 0 <= b < crate::sort::iota(n).len() && a
            != b implies crate::sort::iota(n)[a] != crate::sort::iota(n)[b] by {
        assert(crate::sort::iota(n)[a] == a as usize);
        assert(crate::sort::iota(n)[b] == b as usize);
    }
    assert(crate::sort::iota(n).no_duplicates());
    crate::sort::iota(n).lemma_multiset_has_no_duplicates();
    order.lemma_multiset_has_no_duplicates_conv();
    assert forall|a: int, b: int| 0 <= a < b < s.len() implies s[a] != s[b] by {
        assert(index_paths(s)[a] != index_paths(s)[b]);
    }
    assert(s.no_duplicates());
    assert forall|a: int, b: int| 0 <= a < t.len() && 0 <= b < t.len() && a != b implies t[a]
        != t[b] by {
        assert(order[a] != order[b]);
        let oa = order[a] as int;
        let ob = order[b] as int;
        if oa < ob {
            assert(s[oa] != s[ob]);
        } else {
            assert(s[ob] != s[oa]);
        }
    }
    assert(t.no_duplicates());
    s.lemma_multiset_has_no_duplicates();
    t.lemma_multiset_has_no_duplicates();
    assert forall|v: IndexEntryView| t.to_multiset().count(v) == s.to_multiset().count(v) by {
        vstd::seq_lib::to_multiset_contains(t, v);
        vstd::seq_lib::to_multiset_contains(s, v);
        if t.contains(v) {
            let k = choose|k: int| 0 <= k < t.len() && t[k] == v;
            assert(s[order[k] as int] == v);
        }
        if s.contains(v) {
            let i = choose|i: int| 0 <= i < s.len() && s[i] == v;
            vstd::seq_lib::to_multiset_contains(order, i as usize);
            vstd::seq_lib::to_multiset_contains(crate::sort::iota(n), i as usize);
            assert(crate::sort::iota(n)[i] == i as usize);
            assert(order.contains(i as usize));
            let k = choose|k: int| 0 <= k < order.len() && order[k] == i as usize;
            assert(order[k] as int == i);
            assert(t[k] == s[order[k] as int]);
            assert(t[k] == v);
        }
    }
    assert(t.to_multiset() =~= s.to_multiset());
}

impl Index {
    /// Builds the trees of the staged entries and writes them; returns the
    /// hash of the root tree. The entries are taken in the byte-wise order
    /// of their paths, so that the hash does not depend on the order in which
    /// they were added.
    pub fn write_tree<S: MogStorage>(&self, repo: &mut Repository<S>) -> (r: Result<
        crate::hash::Hash,
        Error,
    >)
        requires
            self.wf(),
            old(repo).wf(),
        ensures
            r is Ok <==> crate::build_tree::all_fit(
                &old(repo).storage,
                old(repo).stores.tree.used(),
                root_built(self@).trees.push(root_built(self@).entries),
            ),
            match r {
                Ok(h) => h == root_hash(self@) && trees_written(
                    old(repo),
                    final(repo),
                    root_built(self@).trees.push(root_built(self@).entries),
                ),
                Err(e) => build_failed(
                    old(repo),
                    final(repo),
                    e,
                    root_built(self@).trees.push(root_built(self@).entries),
                ),
            },
    {
        let order = sort_by_path(
            self.path_offsets.as_slice(),
            self.paths_blob.as_slice(),
            self.count,
        );
        let ghost t = Seq::new(self.count as nat, |k: int| self@[order@[k] as int]);
        proof {
            vstd::seq_lib::to_multiset_len(order@);
            vstd::seq_lib::to_multiset_len(crate::sort::iota(self.count as nat));
            self.lemma_columns();
            lemma_reordered(self@, order@, t);
            assert forall|i: int, j: int| 0 <= i < j < t.len() implies lex_le(
                t[i].path,
                t[j].path,
            ) by {
                assert(crate::sort::key_le(
                    self.path_offsets@,
                    self.paths_blob@,
                    order@[i],
                    order@[j],
                ));
            }
            let c = sorted_staging(self@.to_multiset());
            assert(c.to_multiset() == self@.to_multiset() && sorted_by_path(c));
            assert forall|a: int, b: int| 0 <= a < b < index_paths(t).len() implies index_paths(
                t,
            )[a] != index_paths(t)[b] by {
                lemma_iota_distinct(self.count as nat);
                crate::sort::iota(self.count as nat).lemma_multiset_has_no_duplicates();
                order@.lemma_multiset_has_no_duplicates_conv();
                assert(order@[a] != order@[b]);
                let oa = order@[a] as int;
                let ob = order@[b] as int;
                if oa < ob {
                    assert(self.paths()[oa] != self.paths()[ob]);
                } else {
                    assert(self.paths()[ob] != self.paths()[oa]);
                }
            }
            lemma_sorted_staging_unique(t, c);
        }
        let n = self.count;
        let mut sorted_paths: Vec<&[u8]> = Vec::new();
        let mut sorted_modes: Vec<u32> = Vec::new();
        let mut sorted_hashes: Vec<crate::hash::Hash> = Vec::new();
        let mut k: usize = 0;
        while k < n
            invariant
                k <= n,
                n == self.count,
                n == order@.len(),
                self.arrays_ok(),
                crate::sort::all_below(order@, n as int),
                t == Seq::new(self.count as nat, |k: int| self@[order@[k] as int]),
                sorted_paths@.len() == k,
                sorted_modes@.len() == k,
                sorted_hashes@.len() == k,
                forall|j: int| 0 <= j < k ==> (#[trigger] sorted_paths@[j])@ == t[j].path,
                forall|j: int| 0 <= j < k ==> #[trigger] sorted_modes@[j] == t[j].mode,
                forall|j: int| 0 <= j < k ==> #[trigger] sorted_hashes@[j] == t[j].hash,
                forall|j: int| 0 <= j < k ==> valid_utf8((#[trigger] sorted_paths@[j])@),
            decreases n - k,
        {
            let i = order[k];
            assert(order@[k as int] < n);
            let p = packed_get(self.path_offsets.as_slice(), self.paths_blob.as_slice(), i);
            assert(valid_utf8(packed_at(self.path_offsets@, self.paths_blob@, i as int)));
            sorted_paths.push(p);
            sorted_modes.push(self.modes[i]);
            sorted_hashes.push(self.hashes[i]);
            k += 1;
        }
        proof {
            assert(slices(sorted_paths@) =~= index_paths(t));
            assert(sorted_modes@ =~= index_modes(t));
            assert(sorted_hashes@ =~= index_hashes(t));
        }
        let empty: Vec<u8> = Vec::new();
        match build_tree(
            repo,
            sorted_paths.as_slice(),
            sorted_modes.as_slice(),
            sorted_hashes.as_slice(),
            empty.as_slice(),
            0,
        ) {
            Ok((h, _)) => {
                assert(empty@ =~= Seq::<u8>::empty());
                Ok(h)
            },
            Err(e) => Err(e),
        }
    }
}

impl Default for Index {
    fn default() -> (x: Self)
        ensures
            x.wf(),
            x@ == Seq::<IndexEntryView>::empty(),
    {
        Index::new()
    }
}

} // verus!
