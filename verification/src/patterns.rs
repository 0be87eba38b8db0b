//! Which files a stage, an unstage or a discard is about: the files below
//! the literal paths, and the files whose path matches one of the regular
//! expressions.

use crate::index::{index_paths, Index};
use crate::status::{bytes_of, lemma_selected_none, lemma_selected_step, selected};
use crate::util::{bytes_eq, is_prefix, starts_with_bytes};
use vstd::prelude::*;
use vstd::string::{StringExecFns, StringSliceAdditionalSpecFns};

verus! {

#[verifier::external_type_specification]
#[verifier::external_body]
pub struct ExRegex(regex::Regex);

/// Whether `regex::Regex::new` takes the pattern.
pub uninterp spec fn regex_compiles(pattern: Seq<char>) -> bool;

/// Whether the regular expression of the pattern finds a match anywhere in
/// the text.
pub uninterp spec fn regex_finds(pattern: Seq<char>, text: Seq<char>) -> bool;

/// The pattern that a regular expression was compiled from.
pub uninterp spec fn pattern_of(re: regex::Regex) -> Seq<char>;

/// A compiled regular expression. One is made from the text of a pattern
/// by `regex::Regex::new`, with that function's settings, and in no other
/// way.
pub struct Pattern {
    re: regex::Regex,
}

impl Pattern {
    /// The pattern that the regular expression was compiled from.
    pub closed spec fn text(&self) -> Seq<char> {
        pattern_of(self.re)
    }

    /// The pattern that the regular expression was compiled from.
    pub fn as_str(&self) -> (s: &str)
        ensures
            s@ == self.text(),
    {
        pattern_text(self)
    }
}

/// `regex::Regex::as_str`: the pattern that the regular expression was
/// compiled from.
#[verifier::external_body]
fn pattern_text(p: &Pattern) -> (s: &str)
    ensures
        s@ == pattern_of(p.re),
{
    p.re.as_str()
}

/// `regex::Regex::new`, with the error dropped: compiles the pattern, or
/// gives nothing where it is not a regular expression that the crate
/// takes.
#[verifier::external_body]
fn compile(pattern: &str) -> (r: Option<Pattern>)
    ensures
        r is Some <==> regex_compiles(pattern@),
        r is Some ==> pattern_of(r->0.re) == pattern@,
{
    match regex::Regex::new(pattern) {
        Ok(re) => Some(Pattern { re }),
        Err(_) => None,
    }
}

/// `regex::Regex::is_match`: whether there is a match anywhere in the
/// text.
#[verifier::external_body]
fn finds(p: &Pattern, text: &str) -> (r: bool)
    ensures
        r == regex_finds(pattern_of(p.re), text@),
{
    p.re.is_match(text)
}

/// A pattern as one alternative: `(?:pattern)`.
pub open spec fn wrapped(p: Seq<char>) -> Seq<char> {
    "(?:"@ + p + ")"@
}

/// The alternation of the patterns that compile, among those of `patterns`
/// that are no paths: each wrapped, with `|` between them.
pub open spec fn alternation(patterns: Seq<String>, is_path: Seq<bool>) -> Seq<char>
    decreases patterns.len(),
{
    if patterns.len() == 0 {
        Seq::empty()
    } else {
        let rest = alternation(patterns.drop_last(), is_path.drop_last());
        let p = patterns.last()@;
        if is_path.last() || !regex_compiles(p) {
            rest
        } else if rest.len() == 0 {
            wrapped(p)
        } else {
            rest + "|"@ + wrapped(p)
        }
    }
}

/// The regular expression of the patterns that are no paths: the
/// alternation of those that compile, or `None` where none does or the
/// alternation does not compile. `is_path[i]` says whether pattern `i` is a
/// path that exists.
pub fn combine_patterns(patterns: &[String], is_path: &[bool]) -> (r: Option<Pattern>)
    requires
        patterns@.len() == is_path@.len(),
    ensures
        match r {
            Some(re) => re.text() == alternation(patterns@, is_path@) && alternation(
                patterns@,
                is_path@,
            ).len() > 0,
            None => alternation(patterns@, is_path@).len() == 0 || !regex_compiles(
                alternation(patterns@, is_path@),
            ),
        },
{
    proof {
        reveal_strlit("(?:");
        reveal_strlit(")");
        reveal_strlit("|");
    }
    let n = patterns.len();
    let mut joined = String::new();
    let mut i: usize = 0;
    assert(patterns@.take(0) =~= Seq::<String>::empty());
    while i < n
        invariant
            i <= n,
            n == patterns@.len(),
            n == is_path@.len(),
            joined@ == alternation(patterns@.take(i as int), is_path@.take(i as int)),
            "(?:"@.len() == 3,
        decreases n - i,
    {
        proof {
            assert(patterns@.take(i + 1).drop_last() =~= patterns@.take(i as int));
            assert(is_path@.take(i + 1).drop_last() =~= is_path@.take(i as int));
            assert(patterns@.take(i + 1).last() == patterns@[i as int]);
            assert(is_path@.take(i + 1).last() == is_path@[i as int]);
        }
        if !is_path[i] {
            let p = patterns[i].as_str();
            if compile(p).is_some() {
                if joined.as_str().unicode_len() == 0 {
                    joined = String::from_str("(?:").concat(p).concat(")");
                } else {
                    joined = joined.concat("|").concat("(?:").concat(p).concat(")");
                    assert(joined@ =~= alternation(
                        patterns@.take(i as int),
                        is_path@.take(i as int),
                    ) + "|"@ + wrapped(p@));
                }
            }
        }
        i += 1;
    }
    proof {
        assert(patterns@.take(n as int) =~= patterns@);
        assert(is_path@.take(n as int) =~= is_path@);
    }
    if joined.as_str().unicode_len() == 0 {
        return None;
    }
    compile(joined.as_str())
}

/// Whether the path `p` lies at or below `root`, component by component.
pub open spec fn lies_under(p: Seq<u8>, root: Seq<u8>) -> bool {
    p == root || (is_prefix(root, p) && p.len() > root.len() && (p[root.len() as int] == 0x2f || (
    root.len() > 0 && root[root.len() - 1] == 0x2f)))
}

/// Whether the path `p` lies at or below `root`.
pub fn path_under(p: &[u8], root: &[u8]) -> (r: bool)
    ensures
        r == lies_under(p@, root@),
{
    if bytes_eq(p, root) {
        return true;
    }
    if !starts_with_bytes(p, root) || p.len() <= root.len() {
        return false;
    }
    p[root.len()] == 0x2f || (root.len() > 0 && root[root.len() - 1] == 0x2f)
}

/// Whether a file is selected: its absolute path lies at or below one of
/// the literal roots, or its path relative to the repository root matches
/// the combined regular expression.
pub open spec fn is_selected(
    abs: Seq<u8>,
    rel: Seq<char>,
    roots: Seq<String>,
    combined: Option<Pattern>,
) -> bool {
    (exists|i: int|
        0 <= i < roots.len() && lies_under(abs, vstd::utf8::encode_utf8((#[trigger] roots[i])@)))
        || match combined {
        Some(re) => regex_finds(re.text(), rel),
        None => false,
    }
}

/// Decides whether a file is selected.
pub fn path_selected(abs: &str, rel: &str, roots: &[String], combined: &Option<Pattern>) -> (r:
    bool)
    ensures
        r == is_selected(abs.spec_bytes(), rel@, roots@, *combined),
{
    let n = roots.len();
    let mut i: usize = 0;
    while i < n
        invariant
            i <= n,
            n == roots@.len(),
            forall|k: int|
                0 <= k < i ==> !lies_under(
                    abs.spec_bytes(),
                    vstd::utf8::encode_utf8((#[trigger] roots@[k])@),
                ),
        decreases n - i,
    {
        if path_under(abs.as_bytes(), roots[i].as_str().as_bytes()) {
            assert(lies_under(abs.spec_bytes(), vstd::utf8::encode_utf8(roots@[i as int]@)));
            return true;
        }
        i += 1;
    }
    match combined {
        Some(re) => finds(re, rel),
        None => false,
    }
}

/// The paths of the index, each with whether the regular expression finds
/// a match in it.
pub open spec fn match_flags(paths: Seq<Seq<u8>>, re: Pattern) -> Seq<bool> {
    Seq::new(
        paths.len(),
        |i: int|
            exists|s: Seq<char>|
                vstd::utf8::encode_utf8(s) == paths[i] && regex_finds(re.text(), s),
    )
}

/// The staged paths in which the regular expression finds a match: they
/// can be unstaged though their files are gone.
pub fn matching_index_paths(index: &Index, re: &Pattern) -> (out: Vec<String>)
    requires
        index.arrays_ok(),
    ensures
        bytes_of(out@) == selected(index_paths(index@), match_flags(index_paths(index@), *re)),
{
    let ghost paths = index_paths(index@);
    let ghost flags = match_flags(paths, *re);
    let n = index.count;
    let mut out: Vec<String> = Vec::new();
    let mut i: usize = 0;
    proof {
        lemma_selected_none(paths.take(0), flags.take(0));
    }
    while i < n
        invariant
            i <= n,
            n == index@.len(),
            index.arrays_ok(),
            paths == index_paths(index@),
            flags == match_flags(paths, *re),
            bytes_of(out@) == selected(paths.take(i as int), flags.take(i as int)),
        decreases n - i,
    {
        proof {
            lemma_selected_step(paths, flags, i as int);
        }
        let path = index.get_path(i);
        let hit = finds(re, path);
        proof {
            if flags[i as int] {
                let s = choose|s: Seq<char>|
                    vstd::utf8::encode_utf8(s) == paths[i as int] && regex_finds(re.text(), s);
                vstd::utf8::encode_utf8_decode_utf8(s);
                vstd::utf8::encode_utf8_decode_utf8(path@);
                assert(s == path@);
            }
            if hit {
                assert(vstd::utf8::encode_utf8(path@) == paths[i as int]);
            }
        }
        if hit {
            let ghost prev = out@;
            out.push(path.to_owned());
            assert(bytes_of(out@) =~= bytes_of(prev).push(path.spec_bytes()));
        }
        i += 1;
    }
    proof {
        assert(paths.take(n as int) =~= paths);
        assert(flags.take(n as int) =~= flags);
    }
    out
}

} // verus!
