//! Branches: which names are allowed, and when a branch may be created,
//! deleted or renamed.

use crate::error::Error;
use crate::hash::hash_eq;

use vstd::prelude::*;
use vstd::string::StringSliceAdditionalSpecFns;

verus! {

/// Whether a byte is ASCII whitespace.
pub open spec fn is_space(b: u8) -> bool {
    b == 0x20 || (0x09 <= b <= 0x0d)
}

/// The bytes of `HEAD`.
pub open spec fn head_name() -> Seq<u8> {
    seq![0x48u8, 0x45u8, 0x41u8, 0x44u8]
}

/// Whether a branch may be called so: the name is not empty, holds no slash
/// and no whitespace, does not start with a dash, and is not `HEAD`.
pub open spec fn valid_branch_name(name: Seq<u8>) -> bool {
    &&& name.len() > 0
    &&& forall|i: int| 0 <= i < name.len() ==> name[i] != 0x2f && !is_space(#[trigger] name[i])
    &&& name[0] != 0x2d
    &&& name != head_name()
}

/// Accepts the names that a branch may have; any other is `InvalidInput`.
pub fn validate_branch_name(name: &str) -> (r: Result<(), Error>)
    ensures
        r is Ok <==> valid_branch_name(name.spec_bytes()),
        r is Err ==> r->Err_0 == Error::InvalidInput,
{
    let bytes = name.as_bytes();
    let n = bytes.len();
    if n == 0 {
        return Err(Error::InvalidInput);
    }
    let mut i: usize = 0;
    while i < n
        invariant
            i <= n,
            n == bytes@.len(),
            bytes@ == name.spec_bytes(),
            forall|k: int| 0 <= k < i ==> bytes@[k] != 0x2f && !is_space(#[trigger] bytes@[k]),
        decreases n - i,
    {
        let b = bytes[i];
        if b == 0x2f || b == 0x20 || (0x09 <= b && b <= 0x0d) {
            assert(bytes@[i as int] == 0x2f || is_space(bytes@[i as int]));
            return Err(Error::InvalidInput);
        }
        i += 1;
    }
    if bytes[0] == 0x2d {
        return Err(Error::InvalidInput);
    }
    if n == 4 && bytes[0] == 0x48 && bytes[1] == 0x45 && bytes[2] == 0x41 && bytes[3] == 0x44 {
        assert(bytes@ =~= head_name());
        return Err(Error::InvalidInput);
    }
    Ok(())
}

/// Whether the branch `name` may be created: `Conflict` where it exists,
/// `InvalidInput` where it may not be called so.
pub fn check_create(name: &str, exists: bool) -> (r: Result<(), Error>)
    ensures
        r == (if exists {
            Err::<(), Error>(Error::Conflict)
        } else if valid_branch_name(name.spec_bytes()) {
            Ok::<(), Error>(())
        } else {
            Err::<(), Error>(Error::InvalidInput)
        }),
{
    if exists {
        return Err(Error::Conflict);
    }
    match validate_branch_name(name) {
        Ok(()) => Ok(()),
        Err(_) => Err(Error::InvalidInput),
    }
}

/// Whether a branch may be deleted without force: `NotFound` where it does
/// not exist, `Conflict` where it is checked out, and `Conflict` where its
/// commit is reachable from no other branch.
pub fn check_delete(exists: bool, is_current: bool, merged_elsewhere: bool) -> (r: Result<
    (),
    Error,
>)
    ensures
        r == (if !exists {
            Err::<(), Error>(Error::NotFound)
        } else if is_current || !merged_elsewhere {
            Err::<(), Error>(Error::Conflict)
        } else {
            Ok::<(), Error>(())
        }),
{
    if !exists {
        return Err(Error::NotFound);
    }
    if is_current {
        return Err(Error::Conflict);
    }
    if !merged_elsewhere {
        return Err(Error::Conflict);
    }
    Ok(())
}

/// Whether a branch may be deleted by force: `NotFound` where it does not
/// exist, `Conflict` where it is checked out.
pub fn check_force_delete(exists: bool, is_current: bool) -> (r: Result<(), Error>)
    ensures
        r == (if !exists {
            Err::<(), Error>(Error::NotFound)
        } else if is_current {
            Err::<(), Error>(Error::Conflict)
        } else {
            Ok::<(), Error>(())
        }),
{
    if !exists {
        return Err(Error::NotFound);
    }
    if is_current {
        return Err(Error::Conflict);
    }
    Ok(())
}

/// Whether the branch `old` may be renamed to `new`: `NotFound` where
/// `old` does not exist, `Conflict` where `new` exists, `InvalidInput`
/// where a branch may not be called `new`.
pub fn check_rename(old_exists: bool, new: &str, new_exists: bool) -> (r: Result<(), Error>)
    ensures
        r == (if !old_exists {
            Err::<(), Error>(Error::NotFound)
        } else if new_exists {
            Err::<(), Error>(Error::Conflict)
        } else if valid_branch_name(new.spec_bytes()) {
            Ok::<(), Error>(())
        } else {
            Err::<(), Error>(Error::InvalidInput)
        }),
{
    if !old_exists {
        return Err(Error::NotFound);
    }
    if new_exists {
        return Err(Error::Conflict);
    }
    match validate_branch_name(new) {
        Ok(()) => Ok(()),
        Err(_) => Err(Error::InvalidInput),
    }
}

/// Whether `hash` is one of `reachable`.
pub fn is_merged(reachable: &Vec<crate::hash::Hash>, hash: &crate::hash::Hash) -> (r: bool)
    ensures
        r == reachable@.contains(*hash),
{
    let n = reachable.len();
    let mut i: usize = 0;
    while i < n
        invariant
            i <= n,
            n == reachable@.len(),
            forall|k: int| 0 <= k < i ==> reachable@[k] != *hash,
        decreases n - i,
    {
        if hash_eq(&reachable[i], hash) {
            assert(reachable@[i as int] == *hash);
            return true;
        }
        i += 1;
    }
    false
}

} // verus!
