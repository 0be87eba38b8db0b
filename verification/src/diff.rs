//! What a diff compares.

use vstd::prelude::*;

verus! {

/// The two sides of a diff.
pub enum DiffTarget<'a> {
    /// The working directory against the index.
    WorkingVsIndex,
    /// The index against `HEAD`.
    Staged,
    /// The working directory against the tip of a branch.
    Branch(&'a str),
    /// The working directory against a commit, by its hex.
    Commit(&'a str),
}

} // verus!
