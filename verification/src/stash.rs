//! Stashes: the tree that a stash keeps of the index, the message that
//! names the tree of the dirty files, and the renaming of the stash refs.

use crate::index::{mode_of, FileMeta, Index, IndexEntryView};
use crate::object::{MODE_EXEC, MODE_FILE};
use crate::status::{disk_state_of, DiskState};
use crate::tree::{entry_views, TreeEntry, TreeEntryView};
use vstd::prelude::*;
use vstd::string::{StringExecFns, StringSliceAdditionalSpecFns};
use vstd::utf8::encode_utf8;

verus! {

/// The entries of the tree that a stash keeps of the index: one entry per
/// staged file, called by its whole path.
pub open spec fn stash_tree(index: Seq<IndexEntryView>) -> Seq<TreeEntryView> {
    Seq::new(
        index.len(),
        |i: int| TreeEntryView { mode: index[i].mode, hash: index[i].hash, name: index[i].path },
    )
}

/// The entries of the tree that a stash keeps of the index.
pub fn stash_entries(index: &Index) -> (es: Vec<TreeEntry>)
    requires
        index.arrays_ok(),
    ensures
        entry_views(es@) == stash_tree(index@),
{
    let n = index.count;
    let mut es: Vec<TreeEntry> = Vec::new();
    let mut i: usize = 0;
    while i < n
        invariant
            i <= n,
            n == index@.len(),
            index.arrays_ok(),
            es@.len() == i,
            forall|k: int| 0 <= k < i ==> (#[trigger] es@[k])@ == stash_tree(index@)[k],
        decreases n - i,
    {
        es.push(
            TreeEntry {
                hash: index.hashes[i],
                name: index.get_path(i).to_owned(),
                mode: index.modes[i],
            },
        );
        i += 1;
    }
    assert(entry_views(es@) =~= stash_tree(index@));
    es
}

/// The entries of the tree that a stash keeps of the dirty files among the
/// first `n` staged files: one entry for each file that is there and is
/// not what was staged, called by its whole path, with the mode that its
/// stat data gives and the hash of its content. File `i` has the stat data
/// `stats[i]` and the content hash `hashes[i]`.
pub open spec fn dirty_tree(
    index: Seq<IndexEntryView>,
    stats: Seq<Option<FileMeta>>,
    hashes: Seq<crate::hash::Hash>,
    n: int,
) -> Seq<TreeEntryView>
    decreases n,
{
    if n <= 0 {
        Seq::empty()
    } else {
        let before = dirty_tree(index, stats, hashes, n - 1);
        if disk_state_of(index[n - 1], stats[n - 1]) == DiskState::Modified {
            before.push(
                TreeEntryView {
                    mode: mode_of(stats[n - 1]->0.executable),
                    hash: hashes[n - 1],
                    name: index[n - 1].path,
                },
            )
        } else {
            before
        }
    }
}

/// The entries of the tree that a stash keeps of the dirty files. The
/// hashes of the files that are not dirty are not looked at.
pub fn dirty_entries(index: &Index, stats: &[Option<FileMeta>], hashes: &[crate::hash::Hash]) -> (es:
    Vec<TreeEntry>)
    requires
        index.arrays_ok(),
        stats@.len() == index@.len(),
        hashes@.len() == index@.len(),
    ensures
        entry_views(es@) == dirty_tree(index@, stats@, hashes@, index@.len() as int),
{
    let n = index.count;
    let mut es: Vec<TreeEntry> = Vec::new();
    let mut i: usize = 0;
    assert(entry_views(es@) =~= dirty_tree(index@, stats@, hashes@, 0));
    while i < n
        invariant
            i <= n,
            n == index@.len(),
            index.arrays_ok(),
            stats@.len() == n,
            hashes@.len() == n,
            entry_views(es@) == dirty_tree(index@, stats@, hashes@, i as int),
        decreases n - i,
    {
        let ghost before = entry_views(es@);
        match &stats[i] {
            Some(meta) => {
                if index.is_dirty(i, meta) {
                    let mode = if meta.executable { MODE_EXEC } else { MODE_FILE };
                    let e = TreeEntry { hash: hashes[i], name: index.get_path(i).to_owned(), mode };
                    let ghost ev = e@;
                    es.push(e);
                    assert(entry_views(es@) =~= before.push(ev));
                }
            },
            None => {},
        }
        i += 1;
    }
    es
}

/// The message of a stash commit: it names the tree of the dirty files.
pub fn stash_message(dirty_tree: &crate::hash::Hash) -> (s: String)
    ensures
        exists|hex: Seq<char>|
            encode_utf8(hex) == crate::hash::hex_of(dirty_tree@) && s@ == "dirty="@ + hex,
{
    let hex = crate::hash::hash_to_hex(dirty_tree);
    String::from_str("dirty=").concat(hex.as_str())
}

/// The stash refs that make room for a new stash, each with the number
/// that it gets: the highest first, each one up.
pub open spec fn shifted_up(sorted: Seq<u32>) -> Seq<(u32, u64)> {
    Seq::new(
        sorted.len(),
        |k: int| (sorted[sorted.len() - 1 - k], (sorted[sorted.len() - 1 - k] + 1) as u64),
    )
}

/// The numbers in rising order.
pub open spec fn rising(s: Seq<u32>) -> bool {
    forall|i: int, j: int| 0 <= i < j < s.len() ==> s[i] <= s[j]
}

/// The numbers of `v` in rising order.
pub fn sorted_numbers(v: &Vec<u32>) -> (out: Vec<u32>)
    ensures
        rising(out@),
        out@.to_multiset() == v@.to_multiset(),
{
    broadcast use vstd::multiset::group_multiset_axioms;
    broadcast use vstd::seq_lib::group_to_multiset_ensures;

    let mut out: Vec<u32> = Vec::new();
    let n = v.len();
    let mut i: usize = 0;
    assert(v@.take(0) =~= Seq::<u32>::empty());
    while i < n
        invariant
            i <= n,
            n == v@.len(),
            rising(out@),
            out@.to_multiset() == v@.take(i as int).to_multiset(),
        decreases n - i,
    {
        let x = v[i];
        let mut pos: usize = 0;
        while pos < out.len() && out[pos] <= x
            invariant
                pos <= out@.len(),
                forall|k: int| 0 <= k < pos ==> out@[k] <= x,
            decreases out@.len() - pos,
        {
            pos += 1;
        }
        let ghost before = out@;
        out.insert(pos, x);
        proof {
            vstd::seq_lib::to_multiset_insert(before, pos as int, x);
            assert(v@.take(i + 1) =~= v@.take(i as int).push(x));
            vstd::seq_lib::to_multiset_build(v@.take(i as int), x);
            assert forall|a: int, b: int| 0 <= a < b < out@.len() implies out@[a] <= out@[b] by {
                let a0 = if a < pos { a } else { a - 1 };
                let b0 = if b < pos { b } else { b - 1 };
                if a != pos && b != pos {
                    assert(before[a0] <= before[b0]);
                } else if a == pos {
                    assert(before[pos as int] <= before[b0]);
                }
            }
        }
        i += 1;
    }
    assert(v@.take(n as int) =~= v@);
    out
}

/// The renames that make room for a new stash: each stash ref one up, the
/// highest first, so that no ref is overwritten.
pub fn shift_stash_refs_up(indexes: &Vec<u32>) -> (renames: Vec<(u32, u64)>)
    ensures
        exists|sorted: Seq<u32>|
            rising(sorted) && sorted.to_multiset() == indexes@.to_multiset() && renames@
                == shifted_up(sorted),
{
    let sorted = sorted_numbers(indexes);
    let n = sorted.len();
    let mut renames: Vec<(u32, u64)> = Vec::new();
    let mut k: usize = 0;
    while k < n
        invariant
            k <= n,
            n == sorted@.len(),
            renames@.len() == k,
            forall|j: int| 0 <= j < k ==> #[trigger] renames@[j] == shifted_up(sorted@)[j],
        decreases n - k,
    {
        let x = sorted[n - 1 - k];
        renames.push((x, x as u64 + 1));
        k += 1;
    }
    assert(renames@ =~= shifted_up(sorted@));
    renames
}

/// The numbers of `s` above `from`, in order.
pub open spec fn above(s: Seq<u32>, from: u32) -> Seq<u32>
    decreases s.len(),
{
    if s.len() == 0 {
        Seq::empty()
    } else if s.last() > from {
        above(s.drop_last(), from).push(s.last())
    } else {
        above(s.drop_last(), from)
    }
}

/// Each number with the number below it.
pub open spec fn shifted_down(s: Seq<u32>) -> Seq<(u32, u32)> {
    Seq::new(s.len(), |k: int| (s[k], (s[k] - 1) as u32))
}

/// The renames that close the gap of a dropped stash: each stash ref above
/// `from` one down, the lowest first.
pub fn shift_stash_refs_down_from(indexes: &Vec<u32>, from: u32) -> (renames: Vec<(u32, u32)>)
    ensures
        exists|sorted: Seq<u32>|
            rising(sorted) && sorted.to_multiset() == indexes@.to_multiset() && renames@
                == shifted_down(above(sorted, from)),
{
    let sorted = sorted_numbers(indexes);
    let n = sorted.len();
    let mut renames: Vec<(u32, u32)> = Vec::new();
    let mut k: usize = 0;
    assert(sorted@.take(0) =~= Seq::<u32>::empty());
    while k < n
        invariant
            k <= n,
            n == sorted@.len(),
            renames@ == shifted_down(above(sorted@.take(k as int), from)),
        decreases n - k,
    {
        let x = sorted[k];
        proof {
            assert(sorted@.take(k + 1).drop_last() =~= sorted@.take(k as int));
            assert(sorted@.take(k + 1).last() == x);
        }
        if x > from {
            let ghost prev = above(sorted@.take(k as int), from);
            renames.push((x, x - 1));
            assert(renames@ =~= shifted_down(prev.push(x)));
        }
        k += 1;
    }
    assert(sorted@.take(n as int) =~= sorted@);
    renames
}

/// The renames that close the gap of the newest stash.
pub fn shift_stash_refs_down(indexes: &Vec<u32>) -> (renames: Vec<(u32, u32)>)
    ensures
        exists|sorted: Seq<u32>|
            rising(sorted) && sorted.to_multiset() == indexes@.to_multiset() && renames@
                == shifted_down(above(sorted, 0)),
{
    shift_stash_refs_down_from(indexes, 0)
}

/// The number of stashes.
pub fn count_stashes(indexes: &Vec<u32>) -> (n: usize)
    ensures
        n == indexes@.len(),
{
    indexes.len()
}

/// The bytes of `dirty=`.
pub open spec fn dirty_key() -> Seq<u8> {
    seq![0x64u8, 0x69u8, 0x72u8, 0x74u8, 0x79u8, 0x3du8]
}

/// Where the first line of `s` ends: at its first newline, or at its end.
pub open spec fn line_end(s: Seq<u8>) -> int
    decreases s.len(),
{
    if s.len() == 0 || s[0] == 0x0a {
        0
    } else {
        1 + line_end(s.skip(1))
    }
}

/// A line without the carriage return at its end.
pub open spec fn clean_line(l: Seq<u8>) -> Seq<u8> {
    if l.len() > 0 && l.last() == 0x0d {
        l.drop_last()
    } else {
        l
    }
}

/// A line without every `dirty=` in front of it.
pub open spec fn behind_keys(l: Seq<u8>) -> Seq<u8>
    decreases l.len(),
{
    if crate::util::is_prefix(dirty_key(), l) {
        behind_keys(l.skip(6))
    } else {
        l
    }
}

/// What stands behind `dirty=` in the first line of the message that
/// starts with it.
pub open spec fn dirty_text(message: Seq<u8>) -> Option<Seq<u8>>
    decreases message.len(),
{
    let k = line_end(message);
    let line = clean_line(message.take(k));
    if crate::util::is_prefix(dirty_key(), line) {
        Some(behind_keys(line))
    } else if k >= message.len() || k < 0 {
        None
    } else {
        dirty_text(message.skip(k + 1))
    }
}

/// Where the first line of `s` ends.
pub fn find_line_end(s: &[u8]) -> (k: usize)
    ensures
        k == line_end(s@),
        k <= s@.len(),
{
    let n = s.len();
    let mut k: usize = 0;
    assert(s@.skip(0) =~= s@);
    while k < n && s[k] != 0x0a
        invariant
            k <= n,
            n == s@.len(),
            line_end(s@) == k + line_end(s@.skip(k as int)),
        decreases n - k,
    {
        assert(s@.skip(k as int).skip(1) =~= s@.skip(k + 1));
        k += 1;
    }
    k
}

/// The hash that 64 hex digits spell, or nothing where the bytes are no
/// 64 hex digits.
pub fn hash_from_hex_bytes(t: &[u8]) -> (r: Option<crate::hash::Hash>)
    ensures
        match r {
            Some(h) => crate::hash::is_hash_hex(t@) && h@ == crate::hash::unhex(t@),
            None => !crate::hash::is_hash_hex(t@),
        },
{
    proof {
        if crate::hash::is_hash_hex(t@) {
            assert forall|i: int| 0 <= i < t@.len() implies t@[i] < 0x80 by {
                assert(crate::hash::hex_val(t@[i]) is Some);
            }
            crate::util::lemma_ascii_valid(t@);
        }
    }
    match crate::util::checked_str(t) {
        Some(text) => match crate::hash::hex_to_hash(text) {
            Ok(h) => Some(h),
            Err(_) => None,
        },
        None => None,
    }
}

/// The tree of the dirty files that the message of a stash commit names:
/// what stands behind `dirty=` in the first line that starts with it, where
/// that is the hex of a hash.
pub fn parse_dirty(message: &str) -> (r: Option<crate::hash::Hash>)
    ensures
        match r {
            Some(h) => dirty_text(message.spec_bytes()) is Some && crate::hash::is_hash_hex(
                dirty_text(message.spec_bytes())->0,
            ) && h@ == crate::hash::unhex(dirty_text(message.spec_bytes())->0),
            None => dirty_text(message.spec_bytes()) is None || !crate::hash::is_hash_hex(
                dirty_text(message.spec_bytes())->0,
            ),
        },
{
    let bytes = message.as_bytes();
    let mut rest = bytes;
    loop
        invariant
            dirty_text(rest@) == dirty_text(message.spec_bytes()),
        decreases rest@.len(),
    {
        let k = find_line_end(rest);
        let raw = vstd::slice::slice_subrange(rest, 0, k);
        let line = if raw.len() > 0 && raw[raw.len() - 1] == 0x0d {
            vstd::slice::slice_subrange(raw, 0, raw.len() - 1)
        } else {
            raw
        };
        assert(raw@ =~= rest@.take(k as int));
        assert(line@ =~= clean_line(rest@.take(k as int)));
        if starts_with_key(line) {
            let mut text = line;
            while starts_with_key(text)
                invariant
                    behind_keys(text@) == behind_keys(line@),
                decreases text@.len(),
            {
                let shorter = vstd::slice::slice_subrange(text, 6, text.len());
                assert(shorter@ =~= text@.skip(6));
                text = shorter;
            }
            return hash_from_hex_bytes(text);
        }
        if k >= rest.len() {
            return None;
        }
        let next = vstd::slice::slice_subrange(rest, k + 1, rest.len());
        assert(next@ =~= rest@.skip(k + 1));
        rest = next;
    }
}

/// Whether the line starts with `dirty=`.
fn starts_with_key(l: &[u8]) -> (r: bool)
    ensures
        r == crate::util::is_prefix(dirty_key(), l@),
{
    if l.len() < 6 {
        return false;
    }
    let r = l[0] == 0x64 && l[1] == 0x69 && l[2] == 0x72 && l[3] == 0x74 && l[4] == 0x79 && l[5]
        == 0x3d;
    assert(r == (l@.subrange(0, 6) =~= dirty_key()));
    r
}

} // verus!
