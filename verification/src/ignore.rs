//! Which paths of a working tree are left alone: exact names, directory
//! prefixes and simple globs.

use crate::build_tree::{norm, strip_slashes};
use crate::util::{bytes_eq, is_prefix, starts_with_bytes};
use vstd::prelude::*;
use vstd::string::StringSliceAdditionalSpecFns;

verus! {

/// The byte `*`, which matches any stretch of bytes.
pub const STAR: u8 = 0x2a;

/// The byte `?`, which matches any one byte.
pub const QUERY: u8 = 0x3f;

/// Whether the glob `pat` matches `text`: `*` matches any stretch of
/// bytes, slashes too, `?` matches any one byte, and any other byte matches
/// itself.
pub open spec fn glob_matches(pat: Seq<u8>, text: Seq<u8>) -> bool
    decreases pat.len() + text.len(),
{
    if pat.len() == 0 {
        text.len() == 0
    } else if pat[0] == STAR {
        glob_matches(pat.skip(1), text) || (text.len() > 0 && glob_matches(pat, text.skip(1)))
    } else {
        text.len() > 0 && (pat[0] == QUERY || pat[0] == text[0]) && glob_matches(
            pat.skip(1),
            text.skip(1),
        )
    }
}

/// A glob of `*` and `?`.
pub struct SimpleGlob {
    pub pat: Vec<u8>,
}

impl SimpleGlob {
    /// The glob that `pat` spells.
    pub fn new(pat: &str) -> (g: Self)
        ensures
            g.pat@ == pat.spec_bytes(),
    {
        Self { pat: vstd::slice::slice_to_vec(pat.as_bytes()) }
    }

    /// Whether the glob matches `text`.
    pub fn is_match(&self, text: &[u8]) -> (r: bool)
        ensures
            r == glob_matches(self.pat@, text@),
    {
        let m = self.pat.len();
        let n = text.len();
        // row[k] says whether the pattern from `i` on matches the text from `k` on
        let mut row: Vec<bool> = Vec::new();
        let mut j: usize = 0;
        while j < n
            invariant
                j <= n,
                n == text@.len(),
                m == self.pat@.len(),
                row@.len() == j,
                forall|k: int|
                    0 <= k < j ==> #[trigger] row@[k] == glob_matches(
                        self.pat@.skip(m as int),
                        text@.skip(k),
                    ),
            decreases n - j,
        {
            row.push(false);
            j += 1;
        }
        row.push(true);
        let mut i: usize = m;
        while i > 0
            invariant
                i <= m,
                n == text@.len(),
                m == self.pat@.len(),
                row@.len() == n + 1,
                forall|k: int|
                    0 <= k <= n ==> #[trigger] row@[k] == glob_matches(
                        self.pat@.skip(i as int),
                        text@.skip(k),
                    ),
            decreases i,
        {
            i -= 1;
            let c = self.pat[i];
            let ghost above = row@;
            let ghost here = self.pat@.skip(i as int);
            assert(here.skip(1) =~= self.pat@.skip(i + 1));
            assert(here[0] == c);
            let mut saved = row[n];
            let last = c == STAR && saved;
            assert(last == glob_matches(here, text@.skip(n as int)));
            row.set(n, last);
            let mut pos: usize = n;
            while pos > 0
                invariant
                    pos <= n,
                    n == text@.len(),
                    i < m,
                    m == self.pat@.len(),
                    c == self.pat@[i as int],
                    here == self.pat@.skip(i as int),
                    here.len() > 0,
                    here[0] == c,
                    here.skip(1) == self.pat@.skip(i + 1),
                    above.len() == n + 1,
                    row@.len() == n + 1,
                    saved == above[pos as int],
                    forall|k: int|
                        0 <= k <= n ==> #[trigger] above[k] == glob_matches(
                            self.pat@.skip(i + 1),
                            text@.skip(k),
                        ),
                    forall|k: int| 0 <= k < pos ==> #[trigger] row@[k] == above[k],
                    forall|k: int|
                        pos <= k <= n ==> #[trigger] row@[k] == glob_matches(here, text@.skip(k)),
                decreases pos,
            {
                pos -= 1;
                let old_here = row[pos];
                let ghost rest = text@.skip(pos as int);
                let v = if c == STAR {
                    old_here || row[pos + 1]
                } else {
                    (c == QUERY || c == text[pos]) && saved
                };
                proof {
                    assert(rest.skip(1) =~= text@.skip(pos + 1));
                    assert(rest[0] == text@[pos as int]);
                    assert(old_here == above[pos as int]);
                    assert(v == glob_matches(here, rest));
                }
                row.set(pos, v);
                saved = old_here;
            }
        }
        assert(self.pat@.skip(0) =~= self.pat@);
        assert(text@.skip(0) =~= text@);
        row[0]
    }
}

/// The rules by which paths are ignored.
pub struct Ignore {
    pub root: Vec<u8>,
    pub exact: Vec<Vec<u8>>,
    pub prefixes: Vec<Vec<u8>>,
    pub globs: Vec<SimpleGlob>,
}

impl Ignore {
    /// Whether the path `rel`, relative to the repository root and without
    /// leading slashes, is ignored: it is one of the exact names, starts
    /// with one of the prefixes, or matches one of the globs. The empty
    /// path is not ignored.
    pub open spec fn ignores(&self, rel: Seq<u8>) -> bool {
        let p = norm(rel);
        p.len() > 0 && ((exists|i: int| 0 <= i < self.exact@.len() && (#[trigger] self.exact@[i])@ == p)
            || (exists|i: int|
            0 <= i < self.prefixes@.len() && is_prefix((#[trigger] self.prefixes@[i])@, p))
            || (exists|i: int|
            0 <= i < self.globs@.len() && glob_matches((#[trigger] self.globs@[i]).pat@, p)))
    }

    /// Rules that ignore nothing.
    pub fn empty() -> (g: Self)
        ensures
            forall|rel: Seq<u8>| !g.ignores(rel),
    {
        Self { root: Vec::new(), exact: Vec::new(), prefixes: Vec::new(), globs: Vec::new() }
    }

    /// Whether the path `rel`, relative to the repository root, is
    /// ignored.
    pub fn is_ignored_rel(&self, rel: &str) -> (r: bool)
        ensures
            r == self.ignores(rel.spec_bytes()),
    {
        self.is_ignored_bytes(rel.as_bytes())
    }

    /// Whether the path with these bytes, relative to the repository root,
    /// is ignored.
    pub fn is_ignored_bytes(&self, rel: &[u8]) -> (r: bool)
        ensures
            r == self.ignores(rel@),
    {
        let p = strip_slashes(rel);
        if p.len() == 0 {
            return false;
        }
        let mut i: usize = 0;
        while i < self.exact.len()
            invariant
                i <= self.exact@.len(),
                p@ == norm(rel@),
                p@.len() > 0,
                forall|k: int| 0 <= k < i ==> (#[trigger] self.exact@[k])@ != p@,
            decreases self.exact@.len() - i,
        {
            if bytes_eq(self.exact[i].as_slice(), p) {
                assert(self.exact@[i as int]@ == p@);
                return true;
            }
            i += 1;
        }
        let mut i: usize = 0;
        while i < self.prefixes.len()
            invariant
                i <= self.prefixes@.len(),
                p@ == norm(rel@),
                p@.len() > 0,
                forall|k: int| 0 <= k < self.exact@.len() ==> (#[trigger] self.exact@[k])@ != p@,
                forall|k: int| 0 <= k < i ==> !is_prefix((#[trigger] self.prefixes@[k])@, p@),
            decreases self.prefixes@.len() - i,
        {
            if starts_with_bytes(p, self.prefixes[i].as_slice()) {
                assert(is_prefix(self.prefixes@[i as int]@, p@));
                return true;
            }
            i += 1;
        }
        let mut i: usize = 0;
        while i < self.globs.len()
            invariant
                i <= self.globs@.len(),
                p@ == norm(rel@),
                p@.len() > 0,
                forall|k: int| 0 <= k < self.exact@.len() ==> (#[trigger] self.exact@[k])@ != p@,
                forall|k: int|
                    0 <= k < self.prefixes@.len() ==> !is_prefix(
                        (#[trigger] self.prefixes@[k])@,
                        p@,
                    ),
                forall|k: int| 0 <= k < i ==> !glob_matches((#[trigger] self.globs@[k]).pat@, p@),
            decreases self.globs@.len() - i,
        {
            if self.globs[i].is_match(p) {
                assert(glob_matches(self.globs@[i as int].pat@, p@));
                return true;
            }
            i += 1;
        }
        false
    }

    /// What is left of the absolute path `abs` below the root, or `None`
    /// where the path does not lie below the root.
    pub open spec fn below_root(&self, abs: Seq<u8>) -> Option<Seq<u8>> {
        let root = self.root@;
        if abs == root {
            Some(Seq::empty())
        } else if is_prefix(root, abs) && abs.len() > root.len() && (abs[root.len() as int] == 0x2f
            || (root.len() > 0 && root[root.len() - 1] == 0x2f)) {
            Some(norm(abs.skip(root.len() as int)))
        } else {
            None
        }
    }

    /// Whether the absolute path `abs` is ignored: it lies below the root,
    /// and what is left of it below the root is ignored.
    pub fn is_ignored_abs(&self, abs: &str) -> (r: bool)
        ensures
            r == match self.below_root(abs.spec_bytes()) {
                Some(rel) => self.ignores(rel),
                None => false,
            },
    {
        let a = abs.as_bytes();
        let root = self.root.as_slice();
        if bytes_eq(a, root) {
            proof {
                crate::build_tree::lemma_norm(Seq::<u8>::empty(), 0);
            }
            return false;
        }
        if !starts_with_bytes(a, root) || a.len() <= root.len() {
            return false;
        }
        if a[root.len()] != 0x2f && !(root.len() > 0 && root[root.len() - 1] == 0x2f) {
            return false;
        }
        let rest = vstd::slice::slice_subrange(a, root.len(), a.len());
        let rel = strip_slashes(rest);
        proof {
            assert(rest@ =~= a@.skip(root@.len() as int));
            assert(norm(rel@) == rel@);
        }
        self.is_ignored_bytes(rel)
    }
}

/// What a line of the ignore file says.
pub enum Rule {
    /// Nothing: the line is empty or a comment.
    Skip,
    /// Everything below the directory with this path and a slash.
    Prefix(Seq<u8>),
    /// Everything that the glob matches.
    Glob(Seq<u8>),
    /// The file or directory with this path.
    Exact(Seq<u8>),
}

/// `s` without the whitespace in front of it.
pub open spec fn trim_front(s: Seq<u8>) -> Seq<u8>
    decreases s.len(),
{
    if s.len() > 0 && crate::branch::is_space(s[0]) {
        trim_front(s.skip(1))
    } else {
        s
    }
}

/// `s` without the whitespace at its end.
pub open spec fn trim_back(s: Seq<u8>) -> Seq<u8>
    decreases s.len(),
{
    if s.len() > 0 && crate::branch::is_space(s.last()) {
        trim_back(s.drop_last())
    } else {
        s
    }
}

/// `s` with a slash for each backslash.
pub open spec fn unslash(s: Seq<u8>) -> Seq<u8> {
    Seq::new(s.len(), |i: int| if s[i] == 0x5c { 0x2fu8 } else { s[i] })
}

/// Whether a byte makes a rule a glob: `*`, `?`, `[` or `]`.
pub open spec fn is_glob_byte(b: u8) -> bool {
    b == STAR || b == QUERY || b == 0x5b || b == 0x5d
}

/// What the line `raw` says: without the whitespace around it, it is
/// skipped where it is empty or starts with `#`; with slashes for
/// backslashes and without leading slashes, it is skipped where nothing is
/// left, a prefix where it ends in a slash, a glob where it holds a glob
/// byte, and an exact path otherwise.
pub open spec fn rule_of(raw: Seq<u8>) -> Rule {
    let line = trim_back(trim_front(raw));
    if line.len() == 0 || line[0] == 0x23 {
        Rule::Skip
    } else {
        let p = norm(unslash(line));
        if p.len() == 0 {
            Rule::Skip
        } else if p.last() == 0x2f {
            Rule::Prefix(p)
        } else if exists|i: int| 0 <= i < p.len() && is_glob_byte(#[trigger] p[i]) {
            Rule::Glob(p)
        } else {
            Rule::Exact(p)
        }
    }
}

/// The rules of the lines of `content`, in order.
pub open spec fn rules_in(content: Seq<u8>) -> Seq<Rule>
    decreases content.len(),
{
    if content.len() == 0 {
        Seq::empty()
    } else {
        let k = crate::stash::line_end(content);
        let first = rule_of(crate::stash::clean_line(content.take(k)));
        if k >= content.len() || k < 0 {
            seq![first]
        } else {
            seq![first] + rules_in(content.skip(k + 1))
        }
    }
}

/// The exact paths that the rules name, in order.
pub open spec fn exact_of(rules: Seq<Rule>) -> Seq<Seq<u8>>
    decreases rules.len(),
{
    if rules.len() == 0 {
        Seq::empty()
    } else {
        match rules.last() {
            Rule::Exact(p) => exact_of(rules.drop_last()).push(p),
            _ => exact_of(rules.drop_last()),
        }
    }
}

/// The prefixes that the rules name, in order: those of the prefix rules,
/// and each exact path with a slash behind it.
pub open spec fn prefixes_of(rules: Seq<Rule>) -> Seq<Seq<u8>>
    decreases rules.len(),
{
    if rules.len() == 0 {
        Seq::empty()
    } else {
        match rules.last() {
            Rule::Prefix(p) => prefixes_of(rules.drop_last()).push(p),
            Rule::Exact(p) => prefixes_of(rules.drop_last()).push(p.push(0x2fu8)),
            _ => prefixes_of(rules.drop_last()),
        }
    }
}

/// The globs that the rules name, in order.
pub open spec fn globs_of(rules: Seq<Rule>) -> Seq<Seq<u8>>
    decreases rules.len(),
{
    if rules.len() == 0 {
        Seq::empty()
    } else {
        match rules.last() {
            Rule::Glob(p) => globs_of(rules.drop_last()).push(p),
            _ => globs_of(rules.drop_last()),
        }
    }
}

/// The byte strings behind the vectors.
pub open spec fn vec_views(v: Seq<Vec<u8>>) -> Seq<Seq<u8>> {
    Seq::new(v.len(), |i: int| v[i]@)
}

/// The patterns of the globs.
pub open spec fn glob_views(v: Seq<SimpleGlob>) -> Seq<Seq<u8>> {
    Seq::new(v.len(), |i: int| v[i].pat@)
}

/// The paths that are always ignored: `.mog` and `.git`.
pub open spec fn builtin_exact() -> Seq<Seq<u8>> {
    seq![seq![0x2eu8, 0x6du8, 0x6fu8, 0x67u8], seq![0x2eu8, 0x67u8, 0x69u8, 0x74u8]]
}

/// The prefixes that are always ignored: `.mog/` and `.git/`.
pub open spec fn builtin_prefixes() -> Seq<Seq<u8>> {
    seq![
        seq![0x2eu8, 0x6du8, 0x6fu8, 0x67u8, 0x2fu8],
        seq![0x2eu8, 0x67u8, 0x69u8, 0x74u8, 0x2fu8],
    ]
}

/// What the line `raw` says, as the rule and its path.
fn read_rule(raw: &[u8]) -> (r: (u8, Vec<u8>))
    ensures
        match rule_of(raw@) {
            Rule::Skip => r.0 == 0,
            Rule::Prefix(p) => r.0 == 1 && r.1@ == p,
            Rule::Glob(p) => r.0 == 2 && r.1@ == p,
            Rule::Exact(p) => r.0 == 3 && r.1@ == p,
        },
{
    let n = raw.len();
    let mut a: usize = 0;
    assert(raw@.skip(0) =~= raw@);
    while a < n && is_space_byte(raw[a])
        invariant
            a <= n,
            n == raw@.len(),
            trim_front(raw@) == trim_front(raw@.skip(a as int)),
        decreases n - a,
    {
        assert(raw@.skip(a as int).skip(1) =~= raw@.skip(a + 1));
        a += 1;
    }
    let front = vstd::slice::slice_subrange(raw, a, n);
    assert(front@ =~= trim_front(raw@));
    let mut b: usize = front.len();
    assert(front@.take(b as int) =~= front@);
    while b > 0 && is_space_byte(front[b - 1])
        invariant
            b <= front@.len(),
            trim_back(front@) == trim_back(front@.take(b as int)),
        decreases b,
    {
        assert(front@.take(b as int).drop_last() =~= front@.take(b - 1));
        b -= 1;
    }
    let line = vstd::slice::slice_subrange(front, 0, b);
    assert(line@ =~= trim_back(front@));
    if line.len() == 0 || line[0] == 0x23 {
        return (0, Vec::new());
    }
    let mut swapped: Vec<u8> = Vec::new();
    let mut i: usize = 0;
    while i < line.len()
        invariant
            i <= line@.len(),
            swapped@.len() == i,
            forall|k: int| 0 <= k < i ==> swapped@[k] == unslash(line@)[k],
        decreases line@.len() - i,
    {
        let c = line[i];
        swapped.push(if c == 0x5c { 0x2f } else { c });
        i += 1;
    }
    assert(swapped@ =~= unslash(line@));
    let p = strip_slashes(swapped.as_slice());
    if p.len() == 0 {
        return (0, Vec::new());
    }
    let path = vstd::slice::slice_to_vec(p);
    if p[p.len() - 1] == 0x2f {
        return (1, path);
    }
    let mut found = false;
    let mut j: usize = 0;
    while j < p.len()
        invariant
            j <= p@.len(),
            found == exists|k: int| 0 <= k < j && is_glob_byte(#[trigger] p@[k]),
        decreases p@.len() - j,
    {
        let c = p[j];
        if c == STAR || c == QUERY || c == 0x5b || c == 0x5d {
            assert(is_glob_byte(p@[j as int]));
            found = true;
        }
        j += 1;
    }
    if found {
        (2, path)
    } else {
        (3, path)
    }
}

/// Whether a byte is ASCII whitespace.
fn is_space_byte(b: u8) -> (r: bool)
    ensures
        r == crate::branch::is_space(b),
{
    b == 0x20 || (0x09 <= b && b <= 0x0d)
}

impl Ignore {
    /// The rules of a repository at `root`, read from the content of its
    /// ignore file, or the rules that are always there where it has none.
    pub fn parse(root: &str, content: Option<&str>) -> (g: Self)
        ensures
            g.root@ == root.spec_bytes(),
            ({
                let rules = match content {
                    Some(c) => rules_in(c.spec_bytes()),
                    None => Seq::empty(),
                };
                &&& vec_views(g.exact@) == builtin_exact() + exact_of(rules)
                &&& vec_views(g.prefixes@) == builtin_prefixes() + prefixes_of(rules)
                &&& glob_views(g.globs@) == globs_of(rules)
            }),
    {
        let mut exact: Vec<Vec<u8>> = Vec::new();
        let mut prefixes: Vec<Vec<u8>> = Vec::new();
        let mut globs: Vec<SimpleGlob> = Vec::new();
        exact.push(bytes4(0x2e, 0x6d, 0x6f, 0x67));
        exact.push(bytes4(0x2e, 0x67, 0x69, 0x74));
        let mut mog = bytes4(0x2e, 0x6d, 0x6f, 0x67);
        mog.push(0x2f);
        let mut git = bytes4(0x2e, 0x67, 0x69, 0x74);
        git.push(0x2f);
        assert(mog@ =~= seq![0x2eu8, 0x6du8, 0x6fu8, 0x67u8, 0x2fu8]);
        assert(git@ =~= seq![0x2eu8, 0x67u8, 0x69u8, 0x74u8, 0x2fu8]);
        prefixes.push(mog);
        prefixes.push(git);
        assert(vec_views(exact@) =~= builtin_exact());
        assert(vec_views(prefixes@) =~= builtin_prefixes());
        assert(glob_views(globs@) =~= Seq::<Seq<u8>>::empty());
        let root_bytes = vstd::slice::slice_to_vec(root.as_bytes());
        let text = match content {
            Some(c) => c.as_bytes(),
            None => {
                assert(builtin_exact() + exact_of(Seq::<Rule>::empty()) =~= builtin_exact());
                assert(builtin_prefixes() + prefixes_of(Seq::<Rule>::empty()) =~= builtin_prefixes());
                return Ignore { root: root_bytes, exact, prefixes, globs };
            },
        };
        assert(builtin_exact() + exact_of(Seq::<Rule>::empty()) =~= builtin_exact());
        assert(builtin_prefixes() + prefixes_of(Seq::<Rule>::empty()) =~= builtin_prefixes());
        let ghost all = rules_in(text@);
        let ghost mut seen: Seq<Rule> = Seq::empty();
        let mut rest = text;
        assert(seen + rules_in(rest@) =~= all);
        loop
            invariant
                root_bytes@ == root.spec_bytes(),
                content is Some,
                all == rules_in(content->0.spec_bytes()),
                seen + rules_in(rest@) == all,
                vec_views(exact@) == builtin_exact() + exact_of(seen),
                vec_views(prefixes@) == builtin_prefixes() + prefixes_of(seen),
                glob_views(globs@) == globs_of(seen),
            decreases rest@.len(),
        {
            if rest.len() == 0 {
                assert(seen + Seq::<Rule>::empty() =~= seen);
                return Ignore { root: root_bytes, exact, prefixes, globs };
            }
            let k = crate::stash::find_line_end(rest);
            let raw = vstd::slice::slice_subrange(rest, 0, k);
            let line = if raw.len() > 0 && raw[raw.len() - 1] == 0x0d {
                vstd::slice::slice_subrange(raw, 0, raw.len() - 1)
            } else {
                raw
            };
            assert(raw@ =~= rest@.take(k as int));
            assert(line@ =~= crate::stash::clean_line(rest@.take(k as int)));
            let ghost rule = rule_of(line@);
            let (kind, path) = read_rule(line);
            let ghost ev = vec_views(exact@);
            let ghost pv = vec_views(prefixes@);
            let ghost gv = glob_views(globs@);
            proof {
                assert(seen.push(rule).drop_last() =~= seen);
            }
            if kind == 1 {
                prefixes.push(path);
                assert(vec_views(prefixes@) =~= pv.push(rule->Prefix_0));
            } else if kind == 2 {
                globs.push(SimpleGlob { pat: path });
                assert(glob_views(globs@) =~= gv.push(rule->Glob_0));
            } else if kind == 3 {
                let mut dir = vstd::slice::slice_to_vec(path.as_slice());
                dir.push(0x2f);
                exact.push(path);
                prefixes.push(dir);
                assert(vec_views(exact@) =~= ev.push(rule->Exact_0));
                assert(vec_views(prefixes@) =~= pv.push(rule->Exact_0.push(0x2fu8)));
            }
            proof {
                assert(builtin_exact() + exact_of(seen.push(rule)) =~= vec_views(exact@));
                assert(builtin_prefixes() + prefixes_of(seen.push(rule)) =~= vec_views(prefixes@));
                seen = seen.push(rule);
            }
            if k >= rest.len() {
                proof {
                    assert(rules_in(rest@) =~= seq![rule]);
                    assert(seen =~= all);
                }
                return Ignore { root: root_bytes, exact, prefixes, globs };
            }
            let next = vstd::slice::slice_subrange(rest, k + 1, rest.len());
            proof {
                assert(next@ =~= rest@.skip(k + 1));
                assert(rules_in(rest@) =~= seq![rule] + rules_in(next@));
                assert(seen + rules_in(next@) =~= all);
            }
            rest = next;
        }
    }
}

/// Four bytes.
fn bytes4(a: u8, b: u8, c: u8, d: u8) -> (v: Vec<u8>)
    ensures
        v@ == seq![a, b, c, d],
{
    let mut v: Vec<u8> = Vec::new();
    v.push(a);
    v.push(b);
    v.push(c);
    v.push(d);
    assert(v@ =~= seq![a, b, c, d]);
    v
}

} // verus!
