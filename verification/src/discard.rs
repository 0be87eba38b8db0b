//! Discard: what happens to a working file whose changes are thrown away.

use crate::index::{Index, IndexEntryView};
use crate::status::{FlatEntry, SortedFlatTree};
use vstd::prelude::*;
use vstd::string::StringSliceAdditionalSpecFns;

verus! {

/// What is done with a working file.
pub enum DiscardAction {
    /// The file is written anew from the blob of this hash.
    Restore(crate::hash::Hash),
    /// The file is deleted and its path leaves the index.
    Delete,
}

/// What is done with the file at `path`: it is restored from the tree of
/// `HEAD` where the tree holds the path; from the index where there is no
/// commit yet and the index holds the path; and deleted otherwise.
pub open spec fn discard_action_of(
    head: Seq<FlatEntry>,
    index: Seq<IndexEntryView>,
    path: Seq<u8>,
    a: DiscardAction,
) -> bool {
    if exists|k: int| 0 <= k < head.len() && (#[trigger] head[k]).0 == path {
        exists|k: int| 0 <= k < head.len() && #[trigger] head[k] == (path, a->Restore_0) && a is Restore
    } else if head.len() == 0 && exists|i: int| 0 <= i < index.len() && (#[trigger] index[i]).path == path {
        exists|i: int| 0 <= i < index.len() && (#[trigger] index[i]).path == path && a == DiscardAction::Restore(index[i].hash)
    } else {
        a is Delete
    }
}

/// Decides what is done with the working file at `rel`.
pub fn discard_action(head: &SortedFlatTree, index: &Index, rel: &str) -> (a: DiscardAction)
    requires
        head.wf(),
        index.wf(),
    ensures
        discard_action_of(head@, index@, rel.spec_bytes(), a),
{
    match head.lookup(rel) {
        Some(h) => {
            proof {
                let k = choose|k: int|
                    0 <= k < head@.len() && #[trigger] head@[k] == (rel.spec_bytes(), h);
                assert(head@[k].0 == rel.spec_bytes());
            }
            DiscardAction::Restore(h)
        },
        None => {
            if head.is_empty() {
                match index.find(rel) {
                    Some(i) => {
                        assert(index@[i as int].path == rel.spec_bytes());
                        DiscardAction::Restore(index.hashes[i])
                    },
                    None => DiscardAction::Delete,
                }
            } else {
                DiscardAction::Delete
            }
        },
    }
}

} // verus!
