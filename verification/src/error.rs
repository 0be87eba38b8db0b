//! The error kinds of the library.

use vstd::prelude::*;

verus! {

/// What went wrong. Every fallible function of the library returns one of
/// these kinds.
#[derive(Debug, Clone, Copy, PartialEq, Eq, Structural)]
pub enum Error {
    /// An underlying filesystem or mapping failure.
    Io,
    /// The repository directory is missing.
    NotARepository,
    /// Bad magic or version, a truncated record, a bucket that points
    /// outside the file, or object bytes that are no canonical encoding.
    CorruptObjectDatabase,
    /// Bad magic or version, or sizes and offsets that disagree.
    CorruptIndex,
    /// Every bucket of the hash table is taken.
    HashTableFull,
    /// An object, a ref or a path in a tree walk is missing.
    NotFound,
    /// An object of another kind was asked for.
    TypeMismatch,
    /// Bad hex, a bad branch name or an invalid pattern.
    InvalidInput,
    /// A branch exists already, or is checked out and cannot be deleted.
    Conflict,
    /// An in-memory store has no room for another object: the `u32` ids or
    /// offsets of its arena are used up.
    StoreFull,
}

impl Error {
    /// The words that describe each kind.
    pub open spec fn description(self) -> Seq<char> {
        match self {
            Error::Io => "i/o error"@,
            Error::NotARepository => "not a mog repository"@,
            Error::CorruptObjectDatabase => "corrupt object database"@,
            Error::CorruptIndex => "corrupt index"@,
            Error::HashTableFull => "hash table full"@,
            Error::NotFound => "not found"@,
            Error::TypeMismatch => "type mismatch"@,
            Error::InvalidInput => "invalid input"@,
            Error::Conflict => "conflict"@,
            Error::StoreFull => "object store full"@,
        }
    }

    /// A short description of the kind, for messages.
    pub fn describe(&self) -> (s: &'static str)
        ensures
            s@ == self.description(),
    {
        match self {
            Error::Io => "i/o error",
            Error::NotARepository => "not a mog repository",
            Error::CorruptObjectDatabase => "corrupt object database",
            Error::CorruptIndex => "corrupt index",
            Error::HashTableFull => "hash table full",
            Error::NotFound => "not found",
            Error::TypeMismatch => "type mismatch",
            Error::InvalidInput => "invalid input",
            Error::Conflict => "conflict",
            Error::StoreFull => "object store full",
        }
    }
}

} // verus!
