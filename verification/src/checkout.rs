//! Checkout: which tracked files leave the working tree, and the index that
//! a materialised tree is tracked by.

use crate::error::Error;
use crate::index::{index_paths, FileMeta, Index, IndexEntryView, mode_of};
use crate::stage::{lemma_flush_step, lemma_takes_entries, lemma_takes_fewer, takes_entries, with_entries};
use crate::status::{bytes_of, lemma_selected_none, lemma_selected_step, selected, FlatEntry, SortedFlatTree};
use vstd::prelude::*;
use vstd::string::StringSliceAdditionalSpecFns;

verus! {

/// The paths of the index, each with whether the target tree lacks it.
pub open spec fn leaving_flags(index: Seq<IndexEntryView>, target: Seq<FlatEntry>) -> Seq<bool> {
    Seq::new(
        index.len(),
        |i: int| forall|k: int| 0 <= k < target.len() ==> (#[trigger] target[k]).0 != index[i].path,
    )
}

/// The tracked files that the target tree does not hold: they are deleted
/// from the working tree before the tree is materialised.
pub fn paths_to_delete(index: &Index, target: &SortedFlatTree) -> (gone: Vec<String>)
    requires
        index.wf(),
        target.wf(),
    ensures
        bytes_of(gone@) == selected(index_paths(index@), leaving_flags(index@, target@)),
{
    let ghost paths = index_paths(index@);
    let ghost flags = leaving_flags(index@, target@);
    let n = index.count;
    let mut gone: Vec<String> = Vec::new();
    let mut i: usize = 0;
    proof {
        lemma_selected_none(paths.take(0), flags.take(0));
    }
    while i < n
        invariant
            i <= n,
            n == index@.len(),
            index.wf(),
            target.wf(),
            paths == index_paths(index@),
            flags == leaving_flags(index@, target@),
            bytes_of(gone@) == selected(paths.take(i as int), flags.take(i as int)),
        decreases n - i,
    {
        proof {
            lemma_selected_step(paths, flags, i as int);
        }
        let path = index.get_path(i);
        match target.lookup(path) {
            None => {
                let ghost prev = gone@;
                gone.push(path.to_owned());
                assert(bytes_of(gone@) =~= bytes_of(prev).push(path.spec_bytes()));
            },
            Some(h) => {
                proof {
                    let k = choose|k: int|
                        0 <= k < target@.len() && #[trigger] target@[k] == (path.spec_bytes(), h);
                    assert(target@[k].0 == index@[i as int].path);
                }
            },
        }
        i += 1;
    }
    proof {
        assert(paths.take(n as int) =~= paths);
        assert(flags.take(n as int) =~= flags);
    }
    gone
}

/// The entries by which the files of a materialised tree are tracked: file
/// `i` of the tree with the stat data `metas[i]`.
pub open spec fn tracked_entries(target: Seq<FlatEntry>, metas: Seq<FileMeta>) -> Seq<IndexEntryView> {
    Seq::new(
        target.len(),
        |i: int|
            IndexEntryView {
                mode: mode_of(metas[i].executable),
                hash: target[i].1,
                mtime: metas[i].mtime,
                size: metas[i].size,
                path: target[i].0,
            },
    )
}

/// The index of a working tree into which `target` was materialised: each
/// file of the tree with its hash and the stat data that it got on disk.
/// Where the index has no room for a file, the error is `StoreFull`.
pub fn checkout_index(target: &SortedFlatTree, metas: &[FileMeta]) -> (r: Result<Index, Error>)
    requires
        target.wf(),
        metas@.len() == target@.len(),
    ensures
        r is Ok <==> takes_entries(
            Seq::empty(),
            tracked_entries(target@, metas@),
            target@.len() as int,
        ),
        match r {
            Ok(index) => index.wf() && index@ == with_entries(
                Seq::empty(),
                tracked_entries(target@, metas@),
            ),
            Err(e) => e == Error::StoreFull,
        },
{
    let ghost es = tracked_entries(target@, metas@);
    let mut index = Index::new();
    let n = target.len();
    let mut i: usize = 0;
    assert(es.take(0) =~= Seq::<IndexEntryView>::empty());
    proof {
        lemma_takes_entries(Seq::empty(), es, 0);
    }
    while i < n
        invariant
            i <= n,
            n == target@.len(),
            n == metas@.len(),
            target.wf(),
            es == tracked_entries(target@, metas@),
            index.wf(),
            index@ == with_entries(Seq::empty(), es.take(i as int)),
            takes_entries(Seq::empty(), es, i as int),
        decreases n - i,
    {
        let path = target.get_path(i);
        proof {
            index.lemma_columns();
        }
        proof {
            lemma_takes_entries(Seq::empty(), es, i as int);
        }
        if !index.can_add(path) {
            proof {
                if takes_entries(Seq::empty(), es, n as int) {
                    lemma_takes_fewer(Seq::empty(), es, i + 1, n as int);
                }
            }
            return Err(Error::StoreFull);
        }
        let ghost before = index@;
        index.add(path, target.hashes[i], &metas[i]);
        proof {
            lemma_flush_step(Seq::empty(), es, i as int, before, index@);
        }
        i += 1;
    }
    assert(es.take(n as int) =~= es);
    Ok(index)
}

} // verus!
