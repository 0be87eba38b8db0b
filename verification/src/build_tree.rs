//! From a flat list of staged paths to a hierarchy of trees: one pass over
//! the paths in sorted order, one tree per directory, each written once
//! its entries are complete.

use crate::error::Error;
use crate::object::{tree_record, Object, ObjectView, MODE_DIR};
use crate::repository::Repository;
use crate::storage::{written_all, MogStorage, Pair};
use crate::store::Used;
use crate::tree::{entry_views, TreeEntry, TreeEntryView};
use crate::util::{
    is_prefix, lemma_utf8_between_ascii, starts_with_bytes,
    str_from_utf8_data_shouldve_been_valid_or_we_got_hacked,
};
use vstd::prelude::*;
use vstd::slice::slice_subrange;
use vstd::utf8::{encode_utf8, valid_utf8};

verus! {

/// The byte that separates the components of a path.
pub const SLASH: u8 = 0x2f;

/// A path without its leading slashes.
pub open spec fn norm(p: Seq<u8>) -> Seq<u8>
    decreases p.len(),
{
    if p.len() > 0 && p[0] == SLASH {
        norm(p.skip(1))
    } else {
        p
    }
}

/// Whether the path `p` lies in the directory `d`. Every path lies in the
/// root, which is the empty directory.
pub open spec fn in_dir(p: Seq<u8>, d: Seq<u8>) -> bool {
    d.len() == 0 || (is_prefix(d, norm(p)) && norm(p).len() > d.len() && norm(p)[d.len() as int]
        == SLASH)
}

/// The path `p` as seen from the directory `d` in which it lies.
pub open spec fn rel(p: Seq<u8>, d: Seq<u8>) -> Seq<u8> {
    if d.len() == 0 {
        norm(p)
    } else {
        norm(p).skip(d.len() as int + 1)
    }
}

/// The first slash of `r` is at `s`.
pub open spec fn slash_at(r: Seq<u8>, s: int) -> bool {
    &&& 0 <= s < r.len()
    &&& r[s] == SLASH
    &&& forall|k: int| 0 <= k < s ==> r[k] != SLASH
}

/// Where the first slash of `r` is, or `-1` where it has none.
pub open spec fn first_slash(r: Seq<u8>) -> int {
    if exists|s: int| slash_at(r, s) {
        choose|s: int| slash_at(r, s)
    } else {
        -1
    }
}

/// The directory below `d` in which `p` lies, where the first slash of
/// `rel(p, d)` is at `s`.
pub open spec fn subdir(p: Seq<u8>, d: Seq<u8>, s: int) -> Seq<u8> {
    norm(p).take(norm(p).len() - rel(p, d).len() + s)
}

/// What a directory is built to: its entries, the position of the first
/// path behind it, and the trees of the directories below it, each behind
/// the trees below itself.
pub struct Built {
    pub entries: Seq<TreeEntryView>,
    pub next: int,
    pub trees: Seq<Seq<TreeEntryView>>,
}

/// The hash of a tree: the digest of its record.
pub open spec fn tree_hash(es: Seq<TreeEntryView>) -> crate::hash::Hash {
    crate::hash::blake3_digest(tree_record(es))
}

/// What the directory `d` is built to from the paths at `i` and behind. A
/// path outside `d` ends the directory. A path with nothing left, or with a
/// slash in front, is passed over. A path without a slash is a file of the
/// directory. Any other path opens the directory of its first component,
/// which is built first and entered under that component's name.
#[verifier::opaque]
pub open spec fn built(
    paths: Seq<Seq<u8>>,
    modes: Seq<u32>,
    hashes: Seq<crate::hash::Hash>,
    i: int,
    d: Seq<u8>,
) -> Built
    decreases paths.len() - i,
        (if 0 <= i < paths.len() {
            norm(paths[i]).len() - d.len()
        } else {
            0
        }),
{
    if i < 0 || i >= paths.len() || !in_dir(paths[i], d) {
        Built { entries: Seq::empty(), next: i, trees: Seq::empty() }
    } else {
        let r = rel(paths[i], d);
        let s = first_slash(r);
        if r.len() == 0 || s == 0 {
            built(paths, modes, hashes, i + 1, d)
        } else if s < 0 {
            let rest = built(paths, modes, hashes, i + 1, d);
            Built {
                entries: seq![TreeEntryView { mode: modes[i], hash: hashes[i], name: r }]
                    + rest.entries,
                next: rest.next,
                trees: rest.trees,
            }
        } else {
            let d2 = subdir(paths[i], d, s);
            if d2.len() <= d.len() || d2.len() > norm(paths[i]).len() {
                Built { entries: Seq::empty(), next: i, trees: Seq::empty() }
            } else {
                let sub = built(paths, modes, hashes, i, d2);
                if sub.next <= i || sub.next > paths.len() {
                    Built { entries: Seq::empty(), next: i, trees: Seq::empty() }
                } else {
                    let rest = built(paths, modes, hashes, sub.next, d);
                    Built {
                        entries: seq![
                            TreeEntryView {
                                mode: MODE_DIR,
                                hash: tree_hash(sub.entries),
                                name: r.take(s),
                            },
                        ] + rest.entries,
                        next: rest.next,
                        trees: sub.trees.push(sub.entries) + rest.trees,
                    }
                }
            }
        }
    }
}

/// The hash and the record of each tree, in order.
pub open spec fn tree_pairs(ts: Seq<Seq<TreeEntryView>>) -> Seq<Pair> {
    Seq::new(ts.len(), |k: int| (tree_hash(ts[k]), tree_record(ts[k])))
}

/// The byte strings behind the slices.
pub open spec fn slices(paths: Seq<&[u8]>) -> Seq<Seq<u8>> {
    Seq::new(paths.len(), |i: int| paths[i]@)
}

/// There is one first slash at most.
pub proof fn lemma_first_slash(r: Seq<u8>, s: int)
    requires
        slash_at(r, s),
    ensures
        first_slash(r) == s,
{
    let c = choose|c: int| slash_at(r, c);
    assert(slash_at(r, c));
    if c < s {
        assert(r[c] != SLASH);
    }
    if s < c {
        assert(r[s] != SLASH);
    }
}

/// A path without its leading slashes is what is left behind them.
pub proof fn lemma_norm(p: Seq<u8>, k: int)
    requires
        0 <= k <= p.len(),
        forall|j: int| 0 <= j < k ==> p[j] == SLASH,
        k == p.len() || p[k] != SLASH,
    ensures
        norm(p) == p.skip(k),
    decreases k,
{
    if k == 0 {
        assert(p.skip(0) =~= p);
    } else {
        assert(p[0] == SLASH);
        lemma_norm(p.skip(1), k - 1);
        assert(p.skip(1).skip(k - 1) =~= p.skip(k));
    }
}

/// A path without its leading slashes.
pub fn strip_slashes<'a>(p: &'a [u8]) -> (r: &'a [u8])
    ensures
        r@ == norm(p@),
        norm(r@) == r@,
        r@.len() <= p@.len(),
        r@ == p@.skip(p@.len() - r@.len()),
        forall|j: int| 0 <= j < p@.len() - r@.len() ==> p@[j] == SLASH,
{
    let n = p.len();
    let mut k: usize = 0;
    while k < n && p[k] == SLASH
        invariant
            k <= n,
            n == p@.len(),
            forall|j: int| 0 <= j < k ==> p@[j] == SLASH,
        decreases n - k,
    {
        k += 1;
    }
    proof {
        lemma_norm(p@, k as int);
    }
    let r = slice_subrange(p, k, n);
    assert(r@ =~= p@.skip(k as int));
    proof {
        lemma_norm(r@, 0);
    }
    r
}

/// Where the first slash of `r` is.
pub fn find_slash(r: &[u8]) -> (s: Option<usize>)
    ensures
        match s {
            Some(k) => slash_at(r@, k as int) && first_slash(r@) == k,
            None => first_slash(r@) == -1 && forall|k: int| 0 <= k < r@.len() ==> r@[k] != SLASH,
        },
{
    let n = r.len();
    let mut k: usize = 0;
    while k < n
        invariant
            k <= n,
            n == r@.len(),
            forall|j: int| 0 <= j < k ==> r@[j] != SLASH,
        decreases n - k,
    {
        if r[k] == SLASH {
            proof {
                lemma_first_slash(r@, k as int);
            }
            return Some(k);
        }
        k += 1;
    }
    proof {
        if exists|s: int| slash_at(r@, s) {
            let s = choose|s: int| slash_at(r@, s);
            assert(r@[s] != SLASH);
        }
    }
    None
}

/// Whether the path `p`, which has no leading slash, lies in `dir`.
fn lies_in(p: &[u8], dir: &[u8]) -> (r: bool)
    requires
        norm(p@) == p@,
    ensures
        r == in_dir(p@, dir@),
{
    if dir.len() == 0 {
        return true;
    }
    starts_with_bytes(p, dir) && p.len() > dir.len() && p[dir.len()] == SLASH
}

/// A directory that is built ends behind where it begins, unless its first
/// path lies outside it; and it ends within the paths.
pub proof fn lemma_built_next(
    paths: Seq<Seq<u8>>,
    modes: Seq<u32>,
    hashes: Seq<crate::hash::Hash>,
    i: int,
    d: Seq<u8>,
)
    requires
        0 <= i <= paths.len(),
    ensures
        i <= built(paths, modes, hashes, i, d).next <= paths.len(),
        i < paths.len() && in_dir(paths[i], d) ==> built(paths, modes, hashes, i, d).next > i,
    decreases paths.len() - i,
        (if 0 <= i < paths.len() {
            norm(paths[i]).len() - d.len()
        } else {
            0
        }),
{
    reveal(built);
    if i < paths.len() && in_dir(paths[i], d) {
        let r = rel(paths[i], d);
        let s = first_slash(r);
        if r.len() == 0 || s == 0 {
            lemma_built_next(paths, modes, hashes, i + 1, d);
        } else if s < 0 {
            lemma_built_next(paths, modes, hashes, i + 1, d);
        } else {
            assert(slash_at(r, s));
            let d2 = subdir(paths[i], d, s);
            lemma_subdir(paths[i], d, s);
            lemma_built_next(paths, modes, hashes, i, d2);
            let sub = built(paths, modes, hashes, i, d2);
            lemma_built_next(paths, modes, hashes, sub.next, d);
        }
    }
}

/// Behind the last path, or at a path outside it, a directory has no
/// entries.
pub proof fn lemma_built_end(
    paths: Seq<Seq<u8>>,
    modes: Seq<u32>,
    hashes: Seq<crate::hash::Hash>,
    i: int,
    d: Seq<u8>,
)
    requires
        0 <= i <= paths.len(),
        i == paths.len() || !in_dir(paths[i], d),
    ensures
        built(paths, modes, hashes, i, d) == (Built {
            entries: Seq::empty(),
            next: i,
            trees: Seq::empty(),
        }),
{
    reveal(built);
}

/// A path with nothing left, or with a slash in front, is passed over.
pub proof fn lemma_built_skip(
    paths: Seq<Seq<u8>>,
    modes: Seq<u32>,
    hashes: Seq<crate::hash::Hash>,
    i: int,
    d: Seq<u8>,
)
    requires
        0 <= i < paths.len(),
        in_dir(paths[i], d),
        rel(paths[i], d).len() == 0 || slash_at(rel(paths[i], d), 0),
    ensures
        built(paths, modes, hashes, i, d) == built(paths, modes, hashes, i + 1, d),
{
    reveal(built);
    if rel(paths[i], d).len() != 0 {
        lemma_first_slash(rel(paths[i], d), 0);
    }
}

/// A path without a slash is a file of the directory, in front of what
/// the paths behind it are built to.
pub proof fn lemma_built_file(
    paths: Seq<Seq<u8>>,
    modes: Seq<u32>,
    hashes: Seq<crate::hash::Hash>,
    i: int,
    d: Seq<u8>,
)
    requires
        0 <= i < paths.len(),
        in_dir(paths[i], d),
        rel(paths[i], d).len() > 0,
        first_slash(rel(paths[i], d)) == -1,
    ensures
        ({
            let cur = built(paths, modes, hashes, i, d);
            let rest = built(paths, modes, hashes, i + 1, d);
            &&& cur.entries == seq![
                TreeEntryView { mode: modes[i], hash: hashes[i], name: rel(paths[i], d) },
            ] + rest.entries
            &&& cur.next == rest.next
            &&& cur.trees == rest.trees
        }),
{
    reveal(built);
}

/// A path with a slash behind its first component opens the directory of
/// that component, which is entered in front of what the paths behind that
/// directory are built to.
pub proof fn lemma_built_sub(
    paths: Seq<Seq<u8>>,
    modes: Seq<u32>,
    hashes: Seq<crate::hash::Hash>,
    i: int,
    d: Seq<u8>,
    s: int,
)
    requires
        0 <= i < paths.len(),
        in_dir(paths[i], d),
        slash_at(rel(paths[i], d), s),
        s > 0,
    ensures
        ({
            let cur = built(paths, modes, hashes, i, d);
            let sub = built(paths, modes, hashes, i, subdir(paths[i], d, s));
            let rest = built(paths, modes, hashes, sub.next, d);
            &&& i < sub.next <= paths.len()
            &&& cur.entries == seq![
                TreeEntryView {
                    mode: MODE_DIR,
                    hash: tree_hash(sub.entries),
                    name: rel(paths[i], d).take(s),
                },
            ] + rest.entries
            &&& cur.next == rest.next
            &&& cur.trees == sub.trees.push(sub.entries) + rest.trees
        }),
{
    reveal(built);
    lemma_first_slash(rel(paths[i], d), s);
    lemma_subdir(paths[i], d, s);
    lemma_built_next(paths, modes, hashes, i, subdir(paths[i], d, s));
}

/// The directory of the first component of a path in `d` is longer than
/// `d`, and the path lies in it, with what is behind the component's slash
/// left of it.
pub proof fn lemma_subdir(p: Seq<u8>, d: Seq<u8>, s: int)
    requires
        in_dir(p, d),
        slash_at(rel(p, d), s),
        s > 0,
    ensures
        d.len() < subdir(p, d, s).len() < norm(p).len(),
        in_dir(p, subdir(p, d, s)),
        rel(p, subdir(p, d, s)) == rel(p, d).skip(s + 1),
{
    let q = norm(p);
    let r = rel(p, d);
    let d2 = subdir(p, d, s);
    let base = q.len() - r.len();
    assert(q[base + s] == r[s]);
    assert(q.subrange(0, d2.len() as int) =~= d2);
    assert(q.skip(d2.len() as int + 1) =~= r.skip(s + 1));
}

/// The name of a file or directory in `d`, cut from a well-formed path, is
/// well-formed.
pub proof fn lemma_component_valid(p: Seq<u8>, d: Seq<u8>, a: int, b: int)
    requires
        valid_utf8(p),
        in_dir(p, d),
        0 <= a <= b <= rel(p, d).len(),
        a == 0 || rel(p, d)[a - 1] == SLASH,
        b == rel(p, d).len() || rel(p, d)[b] == SLASH,
        exists|k: int|
            0 <= k <= p.len() && norm(p) == p.skip(k) && forall|j: int| 0 <= j < k ==> p[j] == SLASH,
    ensures
        valid_utf8(rel(p, d).subrange(a, b)),
{
    let k = choose|k: int|
        0 <= k <= p.len() && norm(p) == p.skip(k) && forall|j: int| 0 <= j < k ==> p[j] == SLASH;
    let q = norm(p);
    let r = rel(p, d);
    let base = k + (q.len() - r.len());
    assert(r =~= p.skip(base));
    if base > 0 {
        if q.len() == r.len() {
            assert(p[base - 1] == SLASH);
        } else {
            assert(q[d.len() as int] == SLASH);
            assert(p[base - 1] == q[d.len() as int]);
        }
    }
    if a > 0 {
        assert(p[base + a - 1] == r[a - 1]);
    }
    if b < r.len() {
        assert(p[base + b] == r[b]);
    }
    lemma_utf8_between_ascii(p, base + a, base + b);
    assert(p.subrange(base + a, base + b) =~= r.subrange(a, b));
}

/// What building and writing a directory does to a repository that was
/// `old`: the trees `ts` stand behind the trees that the store held, their
/// records are written in order, and nothing else changes.
pub open spec fn trees_written<S: MogStorage>(
    old: &Repository<S>,
    new: &Repository<S>,
    ts: Seq<Seq<TreeEntryView>>,
) -> bool {
    &&& new.wf()
    &&& new.stores.blob == old.stores.blob
    &&& new.stores.commit == old.stores.commit
    &&& new.object_cache == old.object_cache
    &&& new.stores.tree@ == old.stores.tree@ + ts
    &&& new.stores.tree.used() == used_after(old.stores.tree.used(), ts)
    &&& written_all(&old.storage, &new.storage, tree_pairs(ts))
}

/// What is used of a tree store once the trees `ts` are stored.
pub open spec fn used_after(used: Used, ts: Seq<Seq<TreeEntryView>>) -> Used
    decreases ts.len(),
{
    if ts.len() == 0 {
        used
    } else {
        used_after(used, ts.drop_last()).with(ts.last())
    }
}

/// Whether the trees `ts` fit, one after the other: the tree store has room
/// for each when its turn comes, and the storage takes its record.
pub open spec fn all_fit<S: MogStorage>(storage: &S, used: Used, ts: Seq<Seq<TreeEntryView>>) -> bool
    decreases ts.len(),
{
    ts.len() == 0 || (all_fit(storage, used, ts.drop_last()) && used_after(
        used,
        ts.drop_last(),
    ).takes(ts.last()) && storage.accepts(tree_record(ts.last()).len()))
}

/// What is used after trees and more trees.
pub proof fn lemma_used_after_append(used: Used, ts: Seq<Seq<TreeEntryView>>, us: Seq<Seq<TreeEntryView>>)
    ensures
        used_after(used, ts + us) == used_after(used_after(used, ts), us),
    decreases us.len(),
{
    if us.len() == 0 {
        assert(ts + us =~= ts);
    } else {
        lemma_used_after_append(used, ts, us.drop_last());
        assert((ts + us).drop_last() =~= ts + us.drop_last());
        assert((ts + us).last() == us.last());
    }
}

/// Trees and more trees fit where the trees fit, and the others fit
/// behind them. Storages that take the same records fit the same trees.
pub proof fn lemma_all_fit_append<S: MogStorage>(
    a: &S,
    b: &S,
    used: Used,
    ts: Seq<Seq<TreeEntryView>>,
    us: Seq<Seq<TreeEntryView>>,
)
    requires
        forall|n: nat| b.accepts(n) == a.accepts(n),
    ensures
        all_fit(a, used, ts + us) == (all_fit(a, used, ts) && all_fit(b, used_after(used, ts), us)),
    decreases us.len(),
{
    if us.len() == 0 {
        assert(ts + us =~= ts);
    } else {
        lemma_all_fit_append(a, b, used, ts, us.drop_last());
        lemma_used_after_append(used, ts, us.drop_last());
        assert((ts + us).drop_last() =~= ts + us.drop_last());
        assert((ts + us).last() == us.last());
    }
}

/// The repository `new` is `old` with trees stored behind those that the
/// store held and records written, and nothing else changed.
pub open spec fn progressed<S: MogStorage>(old: &Repository<S>, new: &Repository<S>) -> bool {
    &&& new.wf()
    &&& new.stores.blob == old.stores.blob
    &&& new.stores.commit == old.stores.commit
    &&& new.object_cache == old.object_cache
    &&& exists|ts: Seq<Seq<TreeEntryView>>| new.stores.tree@ == old.stores.tree@ + ts
    &&& exists|ws: Seq<Pair>| written_all(&old.storage, &new.storage, ws)
}

/// Where a build of the trees `total` stopped: at the first tree that does
/// not fit. The trees before it are stored and written, in order; the tree
/// itself is stored too where the tree store had room for it and only the
/// storage refused its record.
pub open spec fn stopped_at<S: MogStorage>(
    old: &Repository<S>,
    new: &Repository<S>,
    total: Seq<Seq<TreeEntryView>>,
    k: int,
) -> bool {
    let used = old.stores.tree.used();
    &&& 0 <= k < total.len()
    &&& all_fit(&old.storage, used, total.take(k))
    &&& !all_fit(&old.storage, used, total.take(k + 1))
    &&& written_all(&old.storage, &new.storage, tree_pairs(total.take(k)))
    &&& new.stores.tree@ == old.stores.tree@ + total.take(
        if used_after(used, total.take(k)).takes(total[k]) {
            k + 1
        } else {
            k
        },
    )
}

/// What a failed build of the trees `total` leaves behind: `StoreFull` is
/// the only error, the repository has only gained trees and records, and
/// those are the trees before the first one that does not fit.
pub open spec fn build_failed<S: MogStorage>(
    old: &Repository<S>,
    new: &Repository<S>,
    e: Error,
    total: Seq<Seq<TreeEntryView>>,
) -> bool {
    &&& e == Error::StoreFull
    &&& progressed(old, new)
    &&& exists|k: int| stopped_at(old, new, total, k)
}

/// A build that wrote the trees `done` and then stopped at the tree `full`
/// stopped at that tree among all its trees.
pub proof fn lemma_stopped<S: MogStorage>(
    old: &Repository<S>,
    mid: &Repository<S>,
    new: &Repository<S>,
    done: Seq<Seq<TreeEntryView>>,
    full: Seq<TreeEntryView>,
    more: Seq<Seq<TreeEntryView>>,
    e: Error,
)
    requires
        trees_written(old, mid, done),
        all_fit(&old.storage, old.stores.tree.used(), done),
        build_failed(mid, new, e, seq![full]),
    ensures
        build_failed(old, new, e, done + seq![full] + more),
{
    let total = done + seq![full] + more;
    let one = seq![full];
    let none = Seq::<Seq<TreeEntryView>>::empty();
    let used = old.stores.tree.used();
    let k0 = choose|k: int| stopped_at(mid, new, one, k);
    let k = done.len() as int;
    assert(k0 == 0);
    assert(one.take(0) =~= none);
    assert(one.take(1) =~= one);
    assert(total.take(k) =~= done);
    assert(total.take(k + 1) =~= done + one);
    assert(total[k] == full);
    assert(used_after(mid.stores.tree.used(), none) == mid.stores.tree.used());
    lemma_all_fit_append(&old.storage, &mid.storage, used, done, one);
    assert(tree_pairs(none) =~= Seq::<Pair>::empty());
    crate::storage::lemma_written_all_append(
        &old.storage,
        &mid.storage,
        &new.storage,
        tree_pairs(done),
        tree_pairs(none),
    );
    assert(tree_pairs(done) + tree_pairs(none) =~= tree_pairs(done));
    if mid.stores.tree.used().takes(full) {
        assert(new.stores.tree@ =~= old.stores.tree@ + total.take(k + 1));
    } else {
        assert(new.stores.tree@ =~= old.stores.tree@ + total.take(k));
    }
    assert(stopped_at(old, new, total, k));
    lemma_written_progressed(old, mid, done);
    lemma_progressed(old, mid, new);
}

/// Progress after progress is progress.
pub proof fn lemma_progressed<S: MogStorage>(a: &Repository<S>, b: &Repository<S>, c: &Repository<S>)
    requires
        progressed(a, b),
        progressed(b, c),
    ensures
        progressed(a, c),
{
    let t1 = choose|ts: Seq<Seq<TreeEntryView>>| b.stores.tree@ == a.stores.tree@ + ts;
    let t2 = choose|ts: Seq<Seq<TreeEntryView>>| c.stores.tree@ == b.stores.tree@ + ts;
    assert(c.stores.tree@ =~= a.stores.tree@ + (t1 + t2));
    let w1 = choose|ws: Seq<Pair>| written_all(&a.storage, &b.storage, ws);
    let w2 = choose|ws: Seq<Pair>| written_all(&b.storage, &c.storage, ws);
    crate::storage::lemma_written_all_append(&a.storage, &b.storage, &c.storage, w1, w2);
}

/// Trees written are progress.
pub proof fn lemma_written_progressed<S: MogStorage>(
    a: &Repository<S>,
    b: &Repository<S>,
    ts: Seq<Seq<TreeEntryView>>,
)
    requires
        trees_written(a, b, ts),
    ensures
        progressed(a, b),
{
}

/// Stores the tree of `entries` and writes its record; returns its hash.
/// A tree store or a storage without room is `StoreFull`.
pub fn write_tree_of<S: MogStorage>(repo: &mut Repository<S>, entries: &Vec<TreeEntry>) -> (r: Result<
    crate::hash::Hash,
    Error,
>)
    requires
        old(repo).wf(),
    ensures
        r is Ok <==> old(repo).stores.tree.has_room(entry_views(entries@)) && old(repo).storage.accepts(tree_record(entry_views(entries@)).len()),
        r is Ok <==> all_fit(
            &old(repo).storage,
            old(repo).stores.tree.used(),
            seq![entry_views(entries@)],
        ),
        match r {
            Ok(h) => h == tree_hash(entry_views(entries@)) && trees_written(
                old(repo),
                final(repo),
                seq![entry_views(entries@)],
            ),
            Err(e) => build_failed(old(repo), final(repo), e, seq![entry_views(entries@)]),
        },
{
    let ghost none = Seq::<Pair>::empty();
    proof {
        let one = seq![entry_views(entries@)];
        assert(one.drop_last() =~= Seq::<Seq<TreeEntryView>>::empty());
        assert(one.last() == entry_views(entries@));
        assert(used_after(old(repo).stores.tree.used(), one.drop_last()) == old(repo).stores.tree.used());
        assert(all_fit(&old(repo).storage, old(repo).stores.tree.used(), one.drop_last()));
        assert(all_fit(&old(repo).storage, old(repo).stores.tree.used(), one) == (old(repo).stores.tree.used().takes(one.last()) && old(repo).storage.accepts(
            tree_record(one.last()).len(),
        )));
    }
    let ghost es = entry_views(entries@);
    if !repo.stores.tree.can_extend(entries.as_slice()) {
        proof {
            let one = seq![es];
            assert(repo.stores.tree@ =~= repo.stores.tree@ + Seq::<Seq<TreeEntryView>>::empty());
            assert(written_all(&old(repo).storage, &repo.storage, none));
            assert(one.take(0) =~= Seq::<Seq<TreeEntryView>>::empty());
            assert(one.take(1) =~= one);
            assert(tree_pairs(one.take(0)) =~= none);
            assert(stopped_at(old(repo), repo, one, 0));
        }
        return Err(Error::StoreFull);
    }
    let id = repo.stores.tree.extend(entries.as_slice());
    assert(repo.stores@.object(Object::Tree(id)) == ObjectView::Tree(es));
    assert(old(repo).stores.tree@ + seq![es] =~= old(repo).stores.tree@.push(es));
    match repo.try_write_object(Object::Tree(id)) {
        Ok(h) => {
            proof {
                assert(tree_pairs(seq![es]) =~= seq![(tree_hash(es), tree_record(es))]);
            }
            Ok(h)
        },
        Err(e) => {
            proof {
                let one = seq![es];
                assert(written_all(&old(repo).storage, &repo.storage, none));
                assert(one.take(0) =~= Seq::<Seq<TreeEntryView>>::empty());
                assert(one.take(1) =~= one);
                assert(tree_pairs(one.take(0)) =~= none);
                assert(repo.stores.tree@ =~= old(repo).stores.tree@ + one.take(1));
                assert(stopped_at(old(repo), repo, one, 0));
            }
            Err(e)
        },
    }
}

/// A directory that is being built: its path, its name in the directory
/// around it, and the entries collected so far.
pub struct BuildFrame<'a> {
    pub dir: &'a [u8],
    pub name: String,
    pub entries: Vec<TreeEntry>,
}

/// A directory that is being built, as values.
pub struct BuildFrameView {
    pub dir: Seq<u8>,
    pub name: Seq<u8>,
    pub entries: Seq<TreeEntryView>,
}

impl<'a> View for BuildFrame<'a> {
    type V = BuildFrameView;

    open spec fn view(&self) -> BuildFrameView {
        BuildFrameView {
            dir: self.dir@,
            name: encode_utf8(self.name@),
            entries: entry_views(self.entries@),
        }
    }
}

/// The directories that are being built, the outermost first.
pub open spec fn build_frames<'a>(stack: Seq<BuildFrame<'a>>) -> Seq<BuildFrameView> {
    Seq::new(stack.len(), |k: int| stack[k]@)
}

/// The entry under which a directory of the entries `entries` is entered.
pub open spec fn dir_entry(name: Seq<u8>, entries: Seq<TreeEntryView>) -> TreeEntryView {
    TreeEntryView { mode: MODE_DIR, hash: tree_hash(entries), name }
}

/// What the outermost directory is built to once a directory called `name`
/// is complete with the entries `full`, where `below` are the directories
/// around it and `next` is the first path behind it: the tree of the
/// complete directory, then what the rest of each directory around it
/// adds.
pub open spec fn closed_from(
    paths: Seq<Seq<u8>>,
    modes: Seq<u32>,
    hashes: Seq<crate::hash::Hash>,
    below: Seq<BuildFrameView>,
    name: Seq<u8>,
    full: Seq<TreeEntryView>,
    next: int,
) -> Built
    decreases below.len(),
{
    if below.len() == 0 {
        Built { entries: full, next, trees: Seq::empty() }
    } else {
        let parent = below.last();
        let cur = built(paths, modes, hashes, next, parent.dir);
        let up = closed_from(
            paths,
            modes,
            hashes,
            below.drop_last(),
            parent.name,
            parent.entries.push(dir_entry(name, full)) + cur.entries,
            cur.next,
        );
        Built { entries: up.entries, next: up.next, trees: seq![full] + cur.trees + up.trees }
    }
}

/// What the outermost directory is built to from where the build stands:
/// in the directories `frames`, before the path `i`.
pub open spec fn state_built(
    paths: Seq<Seq<u8>>,
    modes: Seq<u32>,
    hashes: Seq<crate::hash::Hash>,
    frames: Seq<BuildFrameView>,
    i: int,
) -> Built {
    let top = frames.last();
    let cur = built(paths, modes, hashes, i, top.dir);
    let up = closed_from(
        paths,
        modes,
        hashes,
        frames.drop_last(),
        top.name,
        top.entries + cur.entries,
        cur.next,
    );
    Built { entries: up.entries, next: up.next, trees: cur.trees + up.trees }
}

/// The frame `f` with the entry `v` collected.
pub open spec fn with_collected(f: BuildFrameView, v: TreeEntryView) -> BuildFrameView {
    BuildFrameView { entries: f.entries.push(v), ..f }
}

/// A build that stands where a directory is built goes where that
/// directory goes.
pub proof fn lemma_state_first(
    paths: Seq<Seq<u8>>,
    modes: Seq<u32>,
    hashes: Seq<crate::hash::Hash>,
    f: BuildFrameView,
    i: int,
)
    requires
        f.entries.len() == 0,
    ensures
        state_built(paths, modes, hashes, seq![f], i) == built(paths, modes, hashes, i, f.dir),
{
    let cur = built(paths, modes, hashes, i, f.dir);
    assert(seq![f].drop_last() =~= Seq::<BuildFrameView>::empty());
    assert(seq![f].last() == f);
    assert(f.entries + cur.entries =~= cur.entries);
    assert(cur.trees + Seq::<Seq<TreeEntryView>>::empty() =~= cur.trees);
}

/// A path that is passed over leaves the build where it goes.
pub proof fn lemma_state_skip(
    paths: Seq<Seq<u8>>,
    modes: Seq<u32>,
    hashes: Seq<crate::hash::Hash>,
    frames: Seq<BuildFrameView>,
    i: int,
)
    requires
        frames.len() > 0,
        built(paths, modes, hashes, i, frames.last().dir) == built(
            paths,
            modes,
            hashes,
            i + 1,
            frames.last().dir,
        ),
    ensures
        state_built(paths, modes, hashes, frames, i + 1) == state_built(paths, modes, hashes, frames, i),
{
}

/// A file that is collected leaves the build where it goes.
pub proof fn lemma_state_file(
    paths: Seq<Seq<u8>>,
    modes: Seq<u32>,
    hashes: Seq<crate::hash::Hash>,
    below: Seq<BuildFrameView>,
    f: BuildFrameView,
    i: int,
    v: TreeEntryView,
)
    requires
        ({
            let cur = built(paths, modes, hashes, i, f.dir);
            let rest = built(paths, modes, hashes, i + 1, f.dir);
            &&& cur.entries == seq![v] + rest.entries
            &&& cur.next == rest.next
            &&& cur.trees == rest.trees
        }),
    ensures
        state_built(paths, modes, hashes, below.push(with_collected(f, v)), i + 1) == state_built(
            paths,
            modes,
            hashes,
            below.push(f),
            i,
        ),
{
    let cur = built(paths, modes, hashes, i, f.dir);
    let rest = built(paths, modes, hashes, i + 1, f.dir);
    assert(below.push(f).drop_last() =~= below);
    assert(below.push(with_collected(f, v)).drop_last() =~= below);
    assert(f.entries.push(v) + rest.entries =~= f.entries + cur.entries);
}

/// A directory that is opened leaves the build where it goes.
pub proof fn lemma_state_sub(
    paths: Seq<Seq<u8>>,
    modes: Seq<u32>,
    hashes: Seq<crate::hash::Hash>,
    below: Seq<BuildFrameView>,
    f: BuildFrameView,
    i: int,
    inner: BuildFrameView,
)
    requires
        inner.entries.len() == 0,
        ({
            let cur = built(paths, modes, hashes, i, f.dir);
            let sub = built(paths, modes, hashes, i, inner.dir);
            let rest = built(paths, modes, hashes, sub.next, f.dir);
            &&& cur.entries == seq![dir_entry(inner.name, sub.entries)] + rest.entries
            &&& cur.next == rest.next
            &&& cur.trees == sub.trees.push(sub.entries) + rest.trees
        }),
    ensures
        state_built(paths, modes, hashes, below.push(f).push(inner), i) == state_built(
            paths,
            modes,
            hashes,
            below.push(f),
            i,
        ),
{
    let cur = built(paths, modes, hashes, i, f.dir);
    let sub = built(paths, modes, hashes, i, inner.dir);
    let rest = built(paths, modes, hashes, sub.next, f.dir);
    let one = below.push(f);
    let two = one.push(inner);
    assert(one.drop_last() =~= below);
    assert(one.last() == f);
    assert(two.drop_last() =~= one);
    assert(two.last() == inner);
    assert(inner.entries + sub.entries =~= sub.entries);
    let pfull = f.entries.push(dir_entry(inner.name, sub.entries)) + rest.entries;
    assert(pfull =~= f.entries + cur.entries);
    let up = closed_from(paths, modes, hashes, below, f.name, pfull, rest.next);
    let mid = closed_from(paths, modes, hashes, one, inner.name, sub.entries, sub.next);
    assert(mid.trees == seq![sub.entries] + rest.trees + up.trees);
    assert(sub.trees + (seq![sub.entries] + rest.trees + up.trees) =~= cur.trees + up.trees);
}

/// A directory that is complete, with no directory around it, is what the
/// build was to build.
pub proof fn lemma_state_last(
    paths: Seq<Seq<u8>>,
    modes: Seq<u32>,
    hashes: Seq<crate::hash::Hash>,
    f: BuildFrameView,
    i: int,
)
    requires
        built(paths, modes, hashes, i, f.dir) == (Built {
            entries: Seq::empty(),
            next: i,
            trees: Seq::empty(),
        }),
    ensures
        state_built(paths, modes, hashes, seq![f], i) == (Built {
            entries: f.entries,
            next: i,
            trees: Seq::empty(),
        }),
{
    let none = Seq::<TreeEntryView>::empty();
    assert(seq![f].drop_last() =~= Seq::<BuildFrameView>::empty());
    assert(seq![f].last() == f);
    assert(f.entries + none =~= f.entries);
    assert(Seq::<Seq<TreeEntryView>>::empty() + Seq::<Seq<TreeEntryView>>::empty()
        =~= Seq::<Seq<TreeEntryView>>::empty());
}

/// A directory that is complete is entered in the directory around it,
/// behind its tree.
pub proof fn lemma_state_close(
    paths: Seq<Seq<u8>>,
    modes: Seq<u32>,
    hashes: Seq<crate::hash::Hash>,
    below: Seq<BuildFrameView>,
    parent: BuildFrameView,
    f: BuildFrameView,
    i: int,
)
    requires
        built(paths, modes, hashes, i, f.dir) == (Built {
            entries: Seq::empty(),
            next: i,
            trees: Seq::empty(),
        }),
    ensures
        ({
            let before = state_built(paths, modes, hashes, below.push(parent).push(f), i);
            let after = state_built(
                paths,
                modes,
                hashes,
                below.push(with_collected(parent, dir_entry(f.name, f.entries))),
                i,
            );
            &&& before.entries == after.entries
            &&& before.next == after.next
            &&& before.trees == seq![f.entries] + after.trees
        }),
{
    let one = below.push(parent);
    let two = one.push(f);
    let closed = with_collected(parent, dir_entry(f.name, f.entries));
    let cur = built(paths, modes, hashes, i, parent.dir);
    assert(one.drop_last() =~= below);
    assert(one.last() == parent);
    assert(two.drop_last() =~= one);
    assert(two.last() == f);
    assert(below.push(closed).drop_last() =~= below);
    assert(below.push(closed).last() == closed);
    assert(f.entries + Seq::<TreeEntryView>::empty() =~= f.entries);
    let pfull = parent.entries.push(dir_entry(f.name, f.entries)) + cur.entries;
    let up = closed_from(paths, modes, hashes, below, parent.name, pfull, cur.next);
    let mid = closed_from(paths, modes, hashes, one, f.name, f.entries, i);
    assert(mid.trees == seq![f.entries] + cur.trees + up.trees);
    assert(Seq::<Seq<TreeEntryView>>::empty() + (seq![f.entries] + cur.trees + up.trees)
        =~= seq![f.entries] + (cur.trees + up.trees));
}

/// The measure by which a build goes on before the path `i`: while the
/// path lies in the innermost directory, what is left of the path below
/// that directory; else the number of directories that are open, above
/// every such length.
pub open spec fn build_measure(paths: Seq<Seq<u8>>, i: int, top: Seq<u8>, depth: nat) -> int {
    if 0 <= i < paths.len() {
        if in_dir(paths[i], top) && top.len() <= norm(paths[i]).len() {
            norm(paths[i]).len() - top.len()
        } else {
            (norm(paths[i]).len() + 1 + depth) as int
        }
    } else {
        depth as int
    }
}

/// Builds the tree of the directory `dir` from the paths at `start` and
/// behind, writes it and the trees below it, and returns its hash and the
/// number of paths that it took. The paths are expected in sorted order.
/// The directories that are open are kept on a stack of the function's
/// own, so that paths of any depth are built.
#[verifier::spinoff_prover]
#[verifier::rlimit(60)]
pub fn build_tree<S: MogStorage>(
    repo: &mut Repository<S>,
    paths: &[&[u8]],
    modes: &[u32],
    hashes: &[crate::hash::Hash],
    dir: &[u8],
    start: usize,
) -> (r: Result<(crate::hash::Hash, usize), Error>)
    requires
        old(repo).wf(),
        paths@.len() == modes@.len(),
        paths@.len() == hashes@.len(),
        start <= paths@.len(),
        forall|i: int| 0 <= i < paths@.len() ==> valid_utf8(#[trigger] paths@[i]@),
    ensures
        r is Ok <==> all_fit(
            &old(repo).storage,
            old(repo).stores.tree.used(),
            built(slices(paths@), modes@, hashes@, start as int, dir@).trees.push(
                built(slices(paths@), modes@, hashes@, start as int, dir@).entries,
            ),
        ),
        match r {
            Ok((h, consumed)) => {
                let b = built(slices(paths@), modes@, hashes@, start as int, dir@);
                &&& h == tree_hash(b.entries)
                &&& start + consumed == b.next
                &&& trees_written(old(repo), final(repo), b.trees.push(b.entries))
            },
            Err(e) => build_failed(
                old(repo),
                final(repo),
                e,
                built(slices(paths@), modes@, hashes@, start as int, dir@).trees.push(
                    built(slices(paths@), modes@, hashes@, start as int, dir@).entries,
                ),
            ),
        },
{
    let ghost ps = slices(paths@);
    let ghost goal = built(ps, modes@, hashes@, start as int, dir@);
    let ghost used0 = old(repo).stores.tree.used();
    let n = paths.len();
    let mut i: usize = start;
    let ghost mut done: Seq<Seq<TreeEntryView>> = Seq::empty();
    let mut stack: Vec<BuildFrame<'_>> = Vec::new();
    let first = BuildFrame { dir, name: String::new(), entries: Vec::new() };
    proof {
        assert(first@.entries =~= Seq::<TreeEntryView>::empty());
        lemma_state_first(ps, modes@, hashes@, first@, start as int);
        assert(done + goal.trees =~= goal.trees);
        assert(old(repo).stores.tree@ + done =~= old(repo).stores.tree@);
        assert(tree_pairs(done) =~= Seq::<Pair>::empty());
    }
    stack.push(first);
    assert(build_frames(stack@) =~= seq![first@]);
    loop
        invariant
            start <= i <= n,
            n == paths@.len(),
            n == modes@.len(),
            n == hashes@.len(),
            ps == slices(paths@),
            forall|k: int| 0 <= k < paths@.len() ==> valid_utf8(#[trigger] paths@[k]@),
            goal == built(ps, modes@, hashes@, start as int, dir@),
            used0 == old(repo).stores.tree.used(),
            stack@.len() > 0,
            goal.entries == state_built(ps, modes@, hashes@, build_frames(stack@), i as int).entries,
            goal.next == state_built(ps, modes@, hashes@, build_frames(stack@), i as int).next,
            goal.trees == done + state_built(
                ps,
                modes@,
                hashes@,
                build_frames(stack@),
                i as int,
            ).trees,
            trees_written(old(repo), repo, done),
            all_fit(&old(repo).storage, used0, done),
        decreases n - i, build_measure(ps, i as int, stack@.last().dir@, stack@.len()),
    {
        let ghost frames = build_frames(stack@);
        let ghost before = stack@;
        let top = stack.len() - 1;
        let top_dir = stack[top].dir;
        assert(frames.last() == before[top as int]@);
        let at_end = if i >= n {
            true
        } else {
            let p = strip_slashes(paths[i]);
            assert(ps[i as int] == paths@[i as int]@);
            !lies_in(p, top_dir)
        };
        if at_end {
            let f = match stack.pop() {
                Some(f) => f,
                None => {
                    assert(false);
                    return Err(Error::StoreFull);
                },
            };
            let ghost fv = f@;
            let ghost below = build_frames(stack@);
            proof {
                assert(f == before[top as int]);
                assert(frames =~= below.push(fv));
                lemma_built_end(ps, modes@, hashes@, i as int, fv.dir);
            }
            let ghost mid = *repo;
            let written = write_tree_of(repo, &f.entries);
            proof {
                lemma_all_fit_append(&old(repo).storage, &mid.storage, used0, done, seq![fv.entries]);
            }
            let hash = match written {
                Ok(h) => h,
                Err(e) => {
                    proof {
                        if below.len() == 0 {
                            lemma_state_last(ps, modes@, hashes@, fv, i as int);
                            assert(frames =~= seq![fv]);
                            assert(done + Seq::<Seq<TreeEntryView>>::empty() =~= done);
                            let more = Seq::<Seq<TreeEntryView>>::empty();
                            assert(done + seq![fv.entries] + more =~= goal.trees.push(goal.entries));
                            lemma_stopped(old(repo), &mid, repo, done, fv.entries, more, e);
                        } else {
                            let parent = below.last();
                            let lower = below.drop_last();
                            assert(below =~= lower.push(parent));
                            lemma_state_close(ps, modes@, hashes@, lower, parent, fv, i as int);
                            let after = state_built(
                                ps,
                                modes@,
                                hashes@,
                                lower.push(with_collected(parent, dir_entry(fv.name, fv.entries))),
                                i as int,
                            );
                            let more = after.trees.push(goal.entries);
                            lemma_all_fit_append(
                                &old(repo).storage,
                                &old(repo).storage,
                                used0,
                                done + seq![fv.entries],
                                more,
                            );
                            assert(done + seq![fv.entries] + more =~= goal.trees.push(goal.entries));
                            lemma_stopped(old(repo), &mid, repo, done, fv.entries, more, e);
                        }
                    }
                    return Err(e);
                },
            };
            proof {
                lemma_trees_written_append(old(repo), &mid, repo, done, seq![fv.entries]);
            }
            if stack.len() == 0 {
                proof {
                    lemma_state_last(ps, modes@, hashes@, fv, i as int);
                    assert(frames =~= seq![fv]);
                    assert(done + Seq::<Seq<TreeEntryView>>::empty() =~= done);
                    assert(done + seq![fv.entries] =~= goal.trees.push(goal.entries));
                }
                return Ok((hash, i - start));
            }
            let ghost under = stack@;
            let mut parent = match stack.pop() {
                Some(parent) => parent,
                None => {
                    assert(false);
                    return Err(Error::StoreFull);
                },
            };
            let ghost pv = parent@;
            let ghost lower = build_frames(stack@);
            let e = TreeEntry { mode: MODE_DIR, hash, name: f.name };
            proof {
                assert(parent == under[under.len() - 1]);
                assert(below =~= lower.push(pv));
                assert(e@ == dir_entry(fv.name, fv.entries));
                lemma_state_close(ps, modes@, hashes@, lower, pv, fv, i as int);
                assert(entry_views(parent.entries@.push(e)) =~= entry_views(parent.entries@).push(e@));
            }
            parent.entries.push(e);
            assert(parent@ == with_collected(pv, dir_entry(fv.name, fv.entries)));
            stack.push(parent);
            proof {
                assert(build_frames(stack@) =~= lower.push(
                    with_collected(pv, dir_entry(fv.name, fv.entries)),
                ));
                let after = state_built(ps, modes@, hashes@, build_frames(stack@), i as int);
                assert(done + (seq![fv.entries] + after.trees) =~= (done + seq![fv.entries])
                    + after.trees);
                done = done + seq![fv.entries];
            }
            continue ;
        }
        let p = strip_slashes(paths[i]);
        assert(ps[i as int] == paths@[i as int]@);
        assert(in_dir(ps[i as int], top_dir@));
        let plen = p.len();
        assert(top_dir@.len() > 0 ==> plen > top_dir@.len());
        let skip = if top_dir.len() == 0 { 0 } else { top_dir.len() + 1 };
        let r = slice_subrange(p, skip, p.len());
        assert(r@ =~= rel(ps[i as int], top_dir@));
        if r.len() == 0 {
            proof {
                lemma_built_skip(ps, modes@, hashes@, i as int, top_dir@);
                lemma_state_skip(ps, modes@, hashes@, frames, i as int);
            }
            i += 1;
            continue ;
        }
        match find_slash(r) {
            None => {
                let e = file_entry(paths[i], top_dir, r, modes[i], hashes[i]);
                let mut f = match stack.pop() {
                    Some(f) => f,
                    None => {
                        assert(false);
                        return Err(Error::StoreFull);
                    },
                };
                let ghost fv = f@;
                let ghost below = build_frames(stack@);
                proof {
                    assert(f == before[top as int]);
                    assert(frames =~= below.push(fv));
                    lemma_built_file(ps, modes@, hashes@, i as int, top_dir@);
                    lemma_state_file(ps, modes@, hashes@, below, fv, i as int, e@);
                    assert(entry_views(f.entries@.push(e)) =~= entry_views(f.entries@).push(e@));
                }
                f.entries.push(e);
                assert(f@ == with_collected(fv, e@));
                stack.push(f);
                assert(build_frames(stack@) =~= below.push(with_collected(fv, e@)));
                i += 1;
            },
            Some(s) => {
                if s == 0 {
                    proof {
                        lemma_built_skip(ps, modes@, hashes@, i as int, top_dir@);
                        lemma_state_skip(ps, modes@, hashes@, frames, i as int);
                    }
                    i += 1;
                    continue ;
                }
                proof {
                    lemma_subdir(ps[i as int], top_dir@, s as int);
                    lemma_built_sub(ps, modes@, hashes@, i as int, top_dir@, s as int);
                }
                let name = dir_name(paths[i], top_dir, r, s);
                let sub_dir = slice_subrange(p, 0, skip + s);
                assert(sub_dir@ =~= subdir(ps[i as int], top_dir@, s as int));
                let inner = BuildFrame { dir: sub_dir, name, entries: Vec::new() };
                proof {
                    let below = frames.drop_last();
                    assert(frames =~= below.push(frames.last()));
                    assert(inner@.entries =~= Seq::<TreeEntryView>::empty());
                    lemma_state_sub(ps, modes@, hashes@, below, frames.last(), i as int, inner@);
                }
                stack.push(inner);
                assert(build_frames(stack@) =~= frames.push(inner@));
            },
        }
    }
}

/// The entry of the file whose path, seen from `dir`, is `r`.
fn file_entry(path: &[u8], dir: &[u8], r: &[u8], mode: u32, hash: crate::hash::Hash) -> (e: TreeEntry)
    requires
        valid_utf8(path@),
        in_dir(path@, dir@),
        r@ == rel(path@, dir@),
    ensures
        e@ == (TreeEntryView { mode, hash, name: r@ }),
{
    proof {
        lemma_norm_is_skip(path@);
        lemma_component_valid(path@, dir@, 0, r@.len() as int);
        assert(r@.subrange(0, r@.len() as int) =~= r@);
    }
    let name = str_from_utf8_data_shouldve_been_valid_or_we_got_hacked(r);
    TreeEntry { mode, hash, name: name.to_owned() }
}

/// The name of the directory that the first component of `r` names, where
/// `r` is a path seen from `dir` and has its first slash at `s`.
fn dir_name(path: &[u8], dir: &[u8], r: &[u8], s: usize) -> (name: String)
    requires
        valid_utf8(path@),
        in_dir(path@, dir@),
        r@ == rel(path@, dir@),
        slash_at(r@, s as int),
    ensures
        encode_utf8(name@) == r@.take(s as int),
{
    proof {
        lemma_norm_is_skip(path@);
        lemma_component_valid(path@, dir@, 0, s as int);
    }
    let bytes = slice_subrange(r, 0, s);
    assert(bytes@ =~= r@.take(s as int));
    str_from_utf8_data_shouldve_been_valid_or_we_got_hacked(bytes).to_owned()
}

/// A path without its leading slashes is the path from some position on,
/// with slashes only in front of that position.
pub proof fn lemma_norm_is_skip(p: Seq<u8>)
    ensures
        exists|k: int|
            0 <= k <= p.len() && norm(p) == p.skip(k) && forall|j: int| 0 <= j < k ==> p[j] == SLASH,
    decreases p.len(),
{
    if p.len() > 0 && p[0] == SLASH {
        lemma_norm_is_skip(p.skip(1));
        let k = choose|k: int|
            0 <= k <= p.skip(1).len() && norm(p.skip(1)) == p.skip(1).skip(k) && forall|j: int|
                0 <= j < k ==> p.skip(1)[j] == SLASH;
        assert(p.skip(1).skip(k) =~= p.skip(k + 1));
        assert forall|j: int| 0 <= j < k + 1 implies p[j] == SLASH by {
            if j > 0 {
                assert(p.skip(1)[j - 1] == SLASH);
            }
        }
        assert(0 <= k + 1 <= p.len() && norm(p) == p.skip(k + 1));
    } else {
        assert(p.skip(0) =~= p);
        assert(0 <= 0 <= p.len() && norm(p) == p.skip(0));
    }
}

/// Trees written after trees written are the trees of both, in order.
pub proof fn lemma_trees_written_append<S: MogStorage>(
    a: &Repository<S>,
    b: &Repository<S>,
    c: &Repository<S>,
    ts: Seq<Seq<TreeEntryView>>,
    us: Seq<Seq<TreeEntryView>>,
)
    requires
        trees_written(a, b, ts),
        trees_written(b, c, us),
    ensures
        trees_written(a, c, ts + us),
{
    crate::storage::lemma_written_all_append(
        &a.storage,
        &b.storage,
        &c.storage,
        tree_pairs(ts),
        tree_pairs(us),
    );
    lemma_used_after_append(a.stores.tree.used(), ts, us);
    assert(tree_pairs(ts) + tree_pairs(us) =~= tree_pairs(ts + us));
    assert(a.stores.tree@ + ts + us =~= a.stores.tree@ + (ts + us));
}

} // verus!
