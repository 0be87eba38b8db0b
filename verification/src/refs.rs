//! Refs: small text files that name a commit, by its hex or, for `HEAD`, by
//! the path of another ref.

use crate::error::Error;
use crate::hash::{hash_to_hex, hex_of, hex_to_hash, is_hash_hex, unhex};
use vstd::prelude::*;
use vstd::string::{StringExecFns, StringSliceAdditionalSpecFns};
use vstd::utf8::encode_utf8;

verus! {

/// What `str::trim` leaves of a string: the string without leading and
/// trailing whitespace, as Unicode defines whitespace.
pub uninterp spec fn trimmed(s: Seq<char>) -> Seq<char>;

/// `str::trim`: the string without leading and trailing whitespace.
#[verifier::external_body]
fn trim_str<'a>(s: &'a str) -> (r: &'a str)
    ensures
        r@ == trimmed(s@),
{
    s.trim()
}

/// `str::strip_prefix`: what follows `prefix`, where the string starts
/// with it.
#[verifier::external_body]
fn strip_prefix_str<'a>(s: &'a str, prefix: &str) -> (r: Option<&'a str>)
    ensures
        match r {
            Some(rest) => s@ == prefix@ + rest@,
            None => !(s@.len() >= prefix@.len() && s@.subrange(0, prefix@.len() as int)
                == prefix@),
        },
{
    s.strip_prefix(prefix)
}

/// What `HEAD` holds: the path of the ref of the branch that is checked
/// out, or the hex of a commit.
pub enum Head {
    Symbolic(String),
    Detached(String),
}

/// What the content of `HEAD` says, as strings.
pub open spec fn head_of(content: Seq<char>) -> (bool, Seq<char>) {
    let t = trimmed(content);
    let p = "ref: "@;
    if t.len() >= p.len() && t.subrange(0, p.len() as int) == p {
        (true, trimmed(t.skip(p.len() as int)))
    } else {
        (false, t)
    }
}

/// Reads the content of `HEAD`: behind `ref: ` stands the path of a ref;
/// anything else is taken as the hex of a commit.
pub fn parse_head(content: &str) -> (h: Head)
    ensures
        match h {
            Head::Symbolic(path) => head_of(content@) == (true, path@),
            Head::Detached(hex) => head_of(content@) == (false, hex@),
        },
{
    let t = trim_str(content);
    match strip_prefix_str(t, "ref: ") {
        Some(rest) => {
            assert(t@.skip("ref: "@.len() as int) =~= rest@);
            assert(t@.subrange(0, "ref: "@.len() as int) =~= "ref: "@);
            Head::Symbolic(trim_str(rest).to_owned())
        },
        None => Head::Detached(t.to_owned()),
    }
}

/// The commit that the content of a ref file names: the content without
/// the whitespace around it must be the hex of a hash, or it is
/// `InvalidInput`.
pub fn parse_ref(content: &str) -> (r: Result<crate::hash::Hash, Error>)
    ensures
        r is Ok <==> is_hash_hex(encode_utf8(trimmed(content@))),
        r is Ok ==> r->Ok_0@ == unhex(encode_utf8(trimmed(content@))),
        r is Err ==> r->Err_0 == Error::InvalidInput,
{
    hex_to_hash(trim_str(content))
}

/// The content of a ref file that names `hash`: its hex and a newline.
pub fn ref_content(hash: &crate::hash::Hash) -> (s: String)
    ensures
        exists|hex: Seq<char>| encode_utf8(hex) == hex_of(hash@) && s@ == hex + "\n"@,
{
    let hex = hash_to_hex(hash);
    let ghost h = hex@;
    hex.concat("\n")
}

/// The content of `HEAD` that names the branch `branch`.
pub fn head_content(branch: &str) -> (s: String)
    ensures
        s@ == "ref: refs/heads/"@ + branch@ + "\n"@,
{
    let s = String::from_str("ref: refs/heads/");
    s.concat(branch).concat("\n")
}

/// The path of the ref of the branch `branch`.
pub fn branch_ref(branch: &str) -> (s: String)
    ensures
        s@ == "refs/heads/"@ + branch@,
{
    String::from_str("refs/heads/").concat(branch)
}

/// The branch that is checked out, where the content of `HEAD` names the
/// ref of a branch.
pub fn current_branch(head: &str) -> (r: Option<String>)
    ensures
        match r {
            Some(b) => head_of(head@).0 && head_of(head@).1 == "refs/heads/"@ + b@,
            None => !head_of(head@).0 || !(head_of(head@).1.len() >= "refs/heads/"@.len()
                && head_of(head@).1.subrange(0, "refs/heads/"@.len() as int) == "refs/heads/"@),
        },
{
    match parse_head(head) {
        Head::Symbolic(path) => {
            match strip_prefix_str(path.as_str(), "refs/heads/") {
                Some(b) => Some(b.to_owned()),
                None => None,
            }
        },
        Head::Detached(_) => None,
    }
}

} // verus!
