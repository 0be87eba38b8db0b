//! A repository: an object database, the stores into which objects are
//! decoded, and a cache of the records read last.

use crate::cache::ObjectCache;
use crate::error::Error;
use crate::object::{
    blob_record, decode_blob_bytes, decode_tree_entries, encode_blob_and_hash, object_ok, record,
    tree_record, wrong_kind, Object, ObjectTag,
};
use crate::storage::{known, put, put_all, MogStorage, Pair};
use crate::storage_mock::MockStorage;
use crate::store::{decoded_into, Stores};
use crate::tree::{entry_views, tree_ok, TreeEntry, TreeEntryView};
use crate::storage::part_of;
use vstd::prelude::*;
use crate::build_tree::{find_slash, first_slash, norm, strip_slashes};
use vstd::slice::{slice_subrange, slice_to_vec};
use vstd::string::StringSliceAdditionalSpecFns;

verus! {

/// A repository over the storage `S`.
pub struct Repository<S: MogStorage> {
    pub storage: S,
    pub object_cache: ObjectCache,
    pub stores: Stores,
}

impl Repository<MockStorage> {
    /// A repository in memory, with nothing in it.
    pub fn new_mock() -> (r: Self)
        ensures
            r.wf(),
            r.storage.visible() == Map::<crate::hash::Hash, Seq<u8>>::empty(),
            r.stores.unused(),
            r.object_cache.items() == Seq::<crate::storage::Pair>::empty(),
    {
        let r = Repository {
            storage: MockStorage::new(),
            object_cache: ObjectCache::new(),
            stores: Stores::new(),
        };
        assert(r.object_cache.map() =~= Map::<crate::hash::Hash, Seq<u8>>::empty());
        assert(part_of(r.object_cache.map(), r.storage.visible()));
        r
    }
}

impl<S: MogStorage> Repository<S> {
    /// The storage, the stores and the cache are well-formed, and the cache
    /// holds nothing but what the storage shows.
    pub open spec fn wf(&self) -> bool {
        &&& self.storage.wf()
        &&& self.stores.wf()
        &&& self.object_cache.wf()
        &&& part_of(self.object_cache.map(), self.storage.visible())
    }

    /// A repository over `storage`, with empty stores and an empty cache.
    pub fn new(storage: S) -> (r: Self)
        requires
            storage.wf(),
        ensures
            r.wf(),
            r.storage == storage,
            r.stores.unused(),
            r.object_cache.items() == Seq::<crate::storage::Pair>::empty(),
    {
        let r = Repository { storage, object_cache: ObjectCache::new(), stores: Stores::new() };
        assert(r.object_cache.map() =~= Map::<crate::hash::Hash, Seq<u8>>::empty());
        assert(part_of(r.object_cache.map(), r.storage.visible()));
        r
    }

    /// Reads the object stored under `hash` and decodes it into the stores.
    /// The record comes from the cache where it is there, and is cached
    /// otherwise.
    pub fn read_object(&mut self, hash: &crate::hash::Hash) -> (r: Result<Object, Error>)
        requires
            old(self).wf(),
        ensures
            final(self).wf(),
            final(self).storage == old(self).storage,
            read_into(
                old(self).storage.visible(),
                *hash,
                old(self).stores,
                final(self).stores,
                r,
            ),
    {
        match self.object_cache.get(hash) {
            Some(cached) => {
                assert(self.object_cache.map().dom().contains(*hash));
                return self.stores.decode_and_push_object(cached);
            },
            None => {},
        }
        let data = match self.storage.read(hash) {
            Ok(d) => d,
            Err(e) => {
                return Err(e);
            },
        };
        let object = match self.stores.decode_and_push_object(data) {
            Ok(o) => o,
            Err(e) => {
                return Err(e);
            },
        };
        self.object_cache.insert(*hash, slice_to_vec(data));
        proof {
            lemma_put_submap(old(self).object_cache.map(), *hash, data@, self.storage.visible());
            lemma_submap_trans(
                self.object_cache.map(),
                put(old(self).object_cache.map(), *hash, data@),
                self.storage.visible(),
            );
        }
        Ok(object)
    }

    /// Reads the object stored under `hash` and decodes it into the stores,
    /// past the cache.
    pub fn read_object_without_touching_cache(&mut self, hash: &crate::hash::Hash) -> (r: Result<
        Object,
        Error,
    >)
        requires
            old(self).wf(),
        ensures
            final(self).wf(),
            final(self).storage == old(self).storage,
            final(self).object_cache == old(self).object_cache,
            read_into(
                old(self).storage.visible(),
                *hash,
                old(self).stores,
                final(self).stores,
                r,
            ),
    {
        let data = match self.storage.read(hash) {
            Ok(d) => d,
            Err(e) => {
                return Err(e);
            },
        };
        self.stores.decode_and_push_object(data)
    }

    /// The entries of the tree stored under `hash`, past the cache and the
    /// stores.
    pub fn read_tree_entries_without_touching_cache(&self, hash: &crate::hash::Hash) -> (r: Result<
        Vec<TreeEntry>,
        Error,
    >)
        requires
            self.wf(),
        ensures
            match r {
                Ok(es) => self.storage.visible().contains_key(*hash) && tree_ok(entry_views(es@))
                    && self.storage.visible()[*hash] == tree_record(entry_views(es@)),
                Err(e) => if !self.storage.visible().contains_key(*hash) {
                    e == Error::NotFound
                } else {
                    wrong_kind(self.storage.visible()[*hash], ObjectTag::Tree, e) && forall|
                        es: Seq<TreeEntryView>,
                    |
                        tree_ok(es) ==> self.storage.visible()[*hash] != #[trigger] tree_record(es)
                },
            },
    {
        let data = match self.storage.read(hash) {
            Ok(d) => d,
            Err(e) => {
                return Err(e);
            },
        };
        decode_tree_entries(data)
    }

    /// The bytes of the blob stored under `hash`, past the cache and the
    /// stores.
    pub fn read_blob_bytes_without_touching_cache(&self, hash: &crate::hash::Hash) -> (r: Result<
        &[u8],
        Error,
    >)
        requires
            self.wf(),
        ensures
            blob_read(self.storage.visible(), *hash, r),
    {
        let data = match self.storage.read(hash) {
            Ok(d) => d,
            Err(e) => {
                return Err(e);
            },
        };
        decode_blob_bytes(data)
    }

    /// The bytes of the blob stored under `hash`, through the cache and
    /// past the stores.
    pub fn read_blob_bytes_without_touching_stores(&mut self, hash: &crate::hash::Hash) -> (r:
        Result<&[u8], Error>)
        requires
            old(self).wf(),
        ensures
            final(self).wf(),
            final(self).storage == old(self).storage,
            final(self).stores == old(self).stores,
            blob_read(old(self).storage.visible(), *hash, r),
    {
        if !self.object_cache.contains(hash) {
            let data = match self.storage.read(hash) {
                Ok(d) => d,
                Err(e) => {
                    return Err(e);
                },
            };
            self.object_cache.insert(*hash, slice_to_vec(data));
            proof {
                lemma_put_submap(
                    old(self).object_cache.map(),
                    *hash,
                    data@,
                    self.storage.visible(),
                );
                lemma_submap_trans(
                    self.object_cache.map(),
                    put(old(self).object_cache.map(), *hash, data@),
                    self.storage.visible(),
                );
            }
            return decode_blob_bytes(data);
        }
        match self.object_cache.get(hash) {
            Some(cached) => {
                assert(self.object_cache.map().dom().contains(*hash));
                decode_blob_bytes(cached)
            },
            None => {
                assert(false);
                Err(Error::NotFound)
            },
        }
    }

    /// Encodes the object under `object`, and writes the record under its
    /// hash. Returns the hash.
    pub fn write_object(&mut self, object: Object) -> (h: crate::hash::Hash)
        requires
            old(self).wf(),
            old(self).stores@.holds(object),
            old(self).storage.accepts(record(old(self).stores@.object(object)).len()),
        ensures
            final(self).wf(),
            final(self).stores == old(self).stores,
            final(self).object_cache == old(self).object_cache,
            object_ok(old(self).stores@.object(object)),
            h == crate::hash::blake3_digest(record(old(self).stores@.object(object))),
            written(&old(self).storage, &final(self).storage, h, record(old(self).stores@.object(object))),
    {
        let mut buf: Vec<u8> = Vec::new();
        self.stores.encode_object_into(object, &mut buf);
        let hash = crate::hash::hash_bytes(buf.as_slice());
        self.storage.write(hash, buf);
        proof {
            lemma_written_one(&old(self).storage, &self.storage, hash, record(old(self).stores@.object(object)));
            lemma_put_extends(old(self).storage.visible(), hash, record(old(self).stores@.object(object)));
            lemma_submap_trans(
                self.object_cache.map(),
                old(self).storage.visible(),
                self.storage.visible(),
            );
        }
        hash
    }

    /// Encodes the object under `object`, and writes the record under its
    /// hash, if the storage can take it. Returns the hash, or `StoreFull`.
    pub fn try_write_object(&mut self, object: Object) -> (r: Result<crate::hash::Hash, Error>)
        requires
            old(self).wf(),
            old(self).stores@.holds(object),
        ensures
            final(self).wf(),
            final(self).stores == old(self).stores,
            final(self).object_cache == old(self).object_cache,
            object_ok(old(self).stores@.object(object)),
            match r {
                Ok(h) => old(self).storage.accepts(record(old(self).stores@.object(object)).len())
                    && h == crate::hash::blake3_digest(record(old(self).stores@.object(object)))
                    && written(
                    &old(self).storage,
                    &final(self).storage,
                    h,
                    record(old(self).stores@.object(object)),
                ),
                Err(e) => e == Error::StoreFull && !old(self).storage.accepts(
                    record(old(self).stores@.object(object)).len(),
                ) && final(self).storage == old(self).storage,
            },
    {
        let mut buf: Vec<u8> = Vec::new();
        self.stores.encode_object_into(object, &mut buf);
        if !self.storage.can_accept(buf.len()) {
            return Err(Error::StoreFull);
        }
        let hash = crate::hash::hash_bytes(buf.as_slice());
        self.storage.write(hash, buf);
        proof {
            lemma_written_one(&old(self).storage, &self.storage, hash, record(old(self).stores@.object(object)));
            lemma_put_extends(old(self).storage.visible(), hash, record(old(self).stores@.object(object)));
            lemma_submap_trans(
                self.object_cache.map(),
                old(self).storage.visible(),
                self.storage.visible(),
            );
        }
        Ok(hash)
    }

    /// Encodes `data` as a blob, and writes the record under its hash.
    /// Returns the hash.
    pub fn write_blob(&mut self, data: &[u8]) -> (h: crate::hash::Hash)
        requires
            old(self).wf(),
            old(self).storage.accepts(blob_record(data@).len()),
        ensures
            final(self).wf(),
            final(self).stores == old(self).stores,
            final(self).object_cache == old(self).object_cache,
            h == crate::hash::blake3_digest(blob_record(data@)),
            written(&old(self).storage, &final(self).storage, h, blob_record(data@)),
    {
        let mut buf: Vec<u8> = Vec::new();
        let hash = encode_blob_and_hash(data, &mut buf);
        self.storage.write(hash, buf);
        proof {
            lemma_written_one(&old(self).storage, &self.storage, hash, blob_record(data@));
            lemma_put_extends(old(self).storage.visible(), hash, blob_record(data@));
            lemma_submap_trans(
                self.object_cache.map(),
                old(self).storage.visible(),
                self.storage.visible(),
            );
        }
        hash
    }

    /// Encodes `data` as a blob, and writes the record under its hash, if
    /// the storage can take it. Returns the hash, or `StoreFull`.
    pub fn try_write_blob(&mut self, data: &[u8]) -> (r: Result<crate::hash::Hash, Error>)
        requires
            old(self).wf(),
        ensures
            final(self).wf(),
            final(self).stores == old(self).stores,
            final(self).object_cache == old(self).object_cache,
            match r {
                Ok(h) => old(self).storage.accepts(blob_record(data@).len()) && h
                    == crate::hash::blake3_digest(blob_record(data@)) && written(
                    &old(self).storage,
                    &final(self).storage,
                    h,
                    blob_record(data@),
                ),
                Err(e) => e == Error::StoreFull && !old(self).storage.accepts(
                    blob_record(data@).len(),
                ) && final(self).storage == old(self).storage,
            },
    {
        let mut buf: Vec<u8> = Vec::new();
        let hash = encode_blob_and_hash(data, &mut buf);
        if !self.storage.can_accept(buf.len()) {
            return Err(Error::StoreFull);
        }
        self.storage.write(hash, buf);
        proof {
            lemma_written_one(&old(self).storage, &self.storage, hash, blob_record(data@));
            lemma_put_extends(old(self).storage.visible(), hash, blob_record(data@));
            lemma_submap_trans(
                self.object_cache.map(),
                old(self).storage.visible(),
                self.storage.visible(),
            );
        }
        Ok(hash)
    }
}

/// The components of a path: the stretches between its slashes that are
/// not empty, in order.
pub open spec fn components(path: Seq<u8>) -> Seq<Seq<u8>>
    decreases path.len(),
{
    let q = norm(path);
    if q.len() == 0 || q.len() > path.len() {
        Seq::empty()
    } else {
        let s = first_slash(q);
        if s < 0 || s >= q.len() {
            seq![q]
        } else {
            seq![q.take(s)] + components(q.skip(s + 1))
        }
    }
}

/// The byte strings behind the slices.
pub open spec fn slice_views(v: Seq<&[u8]>) -> Seq<Seq<u8>> {
    Seq::new(v.len(), |i: int| v[i]@)
}

/// The components of a path.
pub fn split_components<'a>(path: &'a [u8]) -> (comps: Vec<&'a [u8]>)
    ensures
        slice_views(comps@) == components(path@),
{
    let mut comps: Vec<&'a [u8]> = Vec::new();
    let mut rest = path;
    assert(slice_views(comps@) + components(rest@) =~= components(path@));
    loop
        invariant
            slice_views(comps@) + components(rest@) == components(path@),
        decreases rest@.len(),
    {
        let q = strip_slashes(rest);
        if q.len() == 0 {
            assert(slice_views(comps@) + Seq::<Seq<u8>>::empty() =~= slice_views(comps@));
            return comps;
        }
        match find_slash(q) {
            None => {
                let ghost prev = slice_views(comps@);
                comps.push(q);
                assert(slice_views(comps@) =~= prev + seq![q@]);
                return comps;
            },
            Some(s) => {
                let ghost prev = slice_views(comps@);
                let head = slice_subrange(q, 0, s);
                let tail = slice_subrange(q, s + 1, q.len());
                comps.push(head);
                proof {
                    assert(head@ =~= q@.take(s as int));
                    assert(tail@ =~= q@.skip(s + 1));
                    assert(slice_views(comps@) =~= prev + seq![head@]);
                    assert(prev + seq![head@] + components(tail@) =~= prev + (seq![head@]
                        + components(tail@)));
                }
                rest = tail;
            },
        }
    }
}

/// Where the walk from the tree under `h` along the components `comps`
/// ends: at the hash of the entry that the last component names. Without a
/// component the walk is `InvalidInput`; a component that the tree on its
/// way lacks is `NotFound`; and a tree on the way that cannot be read fails
/// the walk with its error.
pub open spec fn resolved(
    visible: Map<crate::hash::Hash, Seq<u8>>,
    h: crate::hash::Hash,
    comps: Seq<Seq<u8>>,
) -> Result<crate::hash::Hash, Error>
    decreases comps.len(),
{
    if comps.len() == 0 {
        Err(Error::InvalidInput)
    } else {
        match crate::status::tree_read(visible, h) {
            Err(e) => Err(e),
            Ok(es) => if exists|j: int| crate::tree::is_first_named(es, comps[0], j) {
                let j = choose|j: int| crate::tree::is_first_named(es, comps[0], j);
                if comps.len() == 1 {
                    Ok(es[j].hash)
                } else {
                    resolved(visible, es[j].hash, comps.skip(1))
                }
            } else {
                Err(Error::NotFound)
            },
        }
    }
}

/// The hash of the first entry called `name`.
fn find_named(es: &Vec<TreeEntry>, name: &[u8]) -> (r: Option<crate::hash::Hash>)
    ensures
        crate::tree::found_in(entry_views(es@), name@, r),
{
    let n = es.len();
    let mut j: usize = 0;
    while j < n
        invariant
            j <= n,
            n == es@.len(),
            forall|k: int| 0 <= k < j ==> (#[trigger] entry_views(es@)[k]).name != name@,
        decreases n - j,
    {
        if crate::util::bytes_eq(es[j].name.as_str().as_bytes(), name) {
            assert(crate::tree::is_first_named(entry_views(es@), name@, j as int));
            return Some(es[j].hash);
        }
        j += 1;
    }
    None
}

impl<S: MogStorage> Repository<S> {
    /// Where the walk from the tree under `tree_hash` along `path` ends.
    pub fn resolve_path(&self, tree_hash: &crate::hash::Hash, path: &str) -> (r: Result<
        crate::hash::Hash,
        Error,
    >)
        requires
            self.wf(),
        ensures
            r == resolved(self.storage.visible(), *tree_hash, components(path.spec_bytes())),
    {
        let comps = split_components(path.as_bytes());
        let ghost all = components(path.spec_bytes());
        let ghost visible = self.storage.visible();
        let n = comps.len();
        if n == 0 {
            return Err(Error::InvalidInput);
        }
        let mut current = *tree_hash;
        let mut i: usize = 0;
        assert(all.skip(0) =~= all);
        while i < n
            invariant
                i < n,
                n == comps@.len(),
                self.wf(),
                visible == self.storage.visible(),
                all == slice_views(comps@),
                all == components(path.spec_bytes()),
                resolved(visible, *tree_hash, all) == resolved(visible, current, all.skip(i as int)),
            decreases n - i,
        {
            let ghost rest = all.skip(i as int);
            assert(rest.len() > 0);
            assert(rest[0] == comps@[i as int]@);
            let es = match crate::status::read_tree(self, &current) {
                Ok(es) => es,
                Err(e) => {
                    assert(resolved(visible, current, rest) == Err::<crate::hash::Hash, Error>(e));
                    return Err(e);
                },
            };
            match find_named(&es, comps[i]) {
                Some(h) => {
                    proof {
                        let j = choose|j: int|
                            crate::tree::is_first_named(entry_views(es@), rest[0], j)
                                && entry_views(es@)[j].hash == h;
                        let c = choose|c: int| crate::tree::is_first_named(entry_views(es@), rest[0], c);
                        if c < j {
                            assert(entry_views(es@)[c].name != rest[0]);
                        } else if j < c {
                            assert(entry_views(es@)[j].name != rest[0]);
                        }
                        assert(rest.skip(1) =~= all.skip(i + 1));
                        assert(resolved(visible, current, rest) == if rest.len() == 1 {
                            Ok::<crate::hash::Hash, Error>(h)
                        } else {
                            resolved(visible, h, rest.skip(1))
                        });
                    }
                    if i + 1 == n {
                        return Ok(h);
                    }
                    current = h;
                },
                None => {
                    proof {
                        if exists|j: int| crate::tree::is_first_named(entry_views(es@), rest[0], j) {
                            let j = choose|j: int| crate::tree::is_first_named(entry_views(es@), rest[0], j);
                            assert(entry_views(es@)[j].name != rest[0]);
                        }
                        assert(resolved(visible, current, rest) == Err::<crate::hash::Hash, Error>(
                            Error::NotFound,
                        ));
                    }
                    return Err(Error::NotFound);
                },
            }
            i += 1;
        }
        Err(Error::NotFound)
    }

    /// Walks from the tree under `tree_hash` along `path`, and reads the
    /// object at its end into the stores. Returns the object and its hash.
    pub fn walk_tree_path(&mut self, tree_hash: &crate::hash::Hash, path: &str) -> (r: Result<
        (Object, crate::hash::Hash),
        Error,
    >)
        requires
            old(self).wf(),
        ensures
            final(self).wf(),
            final(self).storage == old(self).storage,
            match resolved(old(self).storage.visible(), *tree_hash, components(path.spec_bytes())) {
                Err(e) => r == Err::<(Object, crate::hash::Hash), Error>(e) && final(self).stores
                    == old(self).stores,
                Ok(h) => match r {
                    Ok((obj, hash)) => hash == h && read_into(
                        old(self).storage.visible(),
                        h,
                        old(self).stores,
                        final(self).stores,
                        Ok(obj),
                    ),
                    Err(e) => read_into(
                        old(self).storage.visible(),
                        h,
                        old(self).stores,
                        final(self).stores,
                        Err(e),
                    ),
                },
            },
    {
        let hash = match self.resolve_path(tree_hash, path) {
            Ok(h) => h,
            Err(e) => {
                return Err(e);
            },
        };
        match self.read_object(&hash) {
            Ok(obj) => Ok((obj, hash)),
            Err(e) => Err(e),
        }
    }

    /// The commits that can be reached from `start` through parents, in
    /// the order in which they are found. At most `limit` commits are
    /// followed; the flag says whether every commit found was followed.
    pub fn reachable_commits(&self, start: &crate::hash::Hash, limit: usize) -> (r: (
        Vec<crate::hash::Hash>,
        bool,
    ))
        requires
            self.wf(),
        ensures
            reached(self.storage.visible(), *start, r.0@),
            r.1 == (r.0@.len() <= limit),
            closed(
                self.storage.visible(),
                r.0@,
                if r.1 {
                    r.0@.len() as int
                } else {
                    limit as int
                },
            ),
    {
        let ghost visible = self.storage.visible();
        let mut found: Vec<crate::hash::Hash> = Vec::new();
        found.push(*start);
        let mut next: usize = 0;
        while next < found.len() && next < limit
            invariant
                self.wf(),
                visible == self.storage.visible(),
                next <= found@.len(),
                next <= limit,
                reached(visible, *start, found@),
                closed(visible, found@, next as int),
            decreases limit - next,
        {
            let current = found[next];
            match crate::log::read_commit(self, &current) {
                Ok(c) => {
                    let n = c.parents.len();
                    let mut k: usize = 0;
                    while k < n
                        invariant
                            k <= n,
                            n == c.parents@.len(),
                            next < found@.len(),
                            current == found@[next as int],
                            crate::log::commit_read(visible, current) == Ok::<
                                crate::commit::CommitView,
                                Error,
                            >(c@),
                            reached(visible, *start, found@),
                            closed(visible, found@, next as int),
                            forall|j: int| 0 <= j < k ==> found@.contains(#[trigger] c.parents@[j]),
                        decreases n - k,
                    {
                        let p = c.parents[k];
                        let ghost before = found@;
                        if !crate::branch::is_merged(&found, &p) {
                            found.push(p);
                            proof {
                                lemma_found_more(visible, *start, before, p, next as int);
                                assert(found@[before.len() as int] == p);
                            }
                        }
                        proof {
                            assert forall|j: int| 0 <= j < k + 1 implies found@.contains(
                                #[trigger] c.parents@[j],
                            ) by {
                                if j < k {
                                    let w = choose|w: int|
                                        0 <= w < before.len() && before[w] == c.parents@[j];
                                    assert(found@[w] == c.parents@[j]);
                                }
                            }
                        }
                        k += 1;
                    }
                },
                Err(_) => {},
            }
            next += 1;
        }
        let complete = next == found.len();
        (found, complete)
    }
}

/// The commit at place `j` of `found` is followed: where it can be read,
/// each of its parents stands in `found`.
pub open spec fn followed(
    visible: Map<crate::hash::Hash, Seq<u8>>,
    found: Seq<crate::hash::Hash>,
    j: int,
) -> bool {
    match crate::log::commit_read(visible, found[j]) {
        Ok(c) => forall|k: int| 0 <= k < c.parents.len() ==> found.contains(#[trigger] c.parents[k]),
        Err(_) => true,
    }
}

/// The first `upto` commits of `found` are followed.
pub open spec fn closed(
    visible: Map<crate::hash::Hash, Seq<u8>>,
    found: Seq<crate::hash::Hash>,
    upto: int,
) -> bool {
    forall|j: int| 0 <= j < upto ==> #[trigger] followed(visible, found, j)
}

/// Every commit of `found` is reached from `start`: the first one is
/// `start`, each later one is a parent of one before it, and none stands
/// twice.
pub open spec fn reached(
    visible: Map<crate::hash::Hash, Seq<u8>>,
    start: crate::hash::Hash,
    found: Seq<crate::hash::Hash>,
) -> bool {
    &&& found.len() >= 1
    &&& found[0] == start
    &&& found.no_duplicates()
    &&& forall|i: int|
        1 <= i < found.len() ==> exists|j: int|
            0 <= j < i && is_parent_of(visible, #[trigger] found[i], found[j])
}

/// `p` is a parent of the commit under `h`.
pub open spec fn is_parent_of(
    visible: Map<crate::hash::Hash, Seq<u8>>,
    p: crate::hash::Hash,
    h: crate::hash::Hash,
) -> bool {
    match crate::log::commit_read(visible, h) {
        Ok(c) => c.parents.contains(p),
        Err(_) => false,
    }
}

/// A parent of a commit that was found, found for the first time, is
/// reached too, and the commits that were followed still are.
pub proof fn lemma_found_more(
    visible: Map<crate::hash::Hash, Seq<u8>>,
    start: crate::hash::Hash,
    found: Seq<crate::hash::Hash>,
    p: crate::hash::Hash,
    from: int,
)
    requires
        reached(visible, start, found),
        closed(visible, found, from),
        0 <= from < found.len(),
        is_parent_of(visible, p, found[from]),
        !found.contains(p),
    ensures
        reached(visible, start, found.push(p)),
        closed(visible, found.push(p), from),
{
    let more = found.push(p);
    assert forall|i: int| 1 <= i < more.len() implies exists|j: int|
        0 <= j < i && is_parent_of(visible, #[trigger] more[i], more[j]) by {
        if i < found.len() {
            assert(more[i] == found[i]);
            let j = choose|j: int| 0 <= j < i && is_parent_of(visible, found[i], found[j]);
            assert(0 <= j < i && is_parent_of(visible, more[i], more[j]));
        } else {
            assert(0 <= from < i && is_parent_of(visible, more[i], more[from]));
        }
    }
    assert forall|a: int, b: int| 0 <= a < more.len() && 0 <= b < more.len() && a != b implies more[a]
        != more[b] by {
        if a < found.len() && b < found.len() {
            assert(found[a] != found[b]);
        } else if a < found.len() {
            assert(found.contains(found[a]));
        } else {
            assert(found.contains(found[b]));
        }
    }
    assert(more.no_duplicates());
    assert(more[0] == start);
    assert forall|j: int| 0 <= j < from implies #[trigger] followed(visible, more, j) by {
        assert(followed(visible, found, j));
        match crate::log::commit_read(visible, found[j]) {
            Ok(c) => {
                assert forall|k: int| 0 <= k < c.parents.len() implies more.contains(
                    #[trigger] c.parents[k],
                ) by {
                    assert(found.contains(c.parents[k]));
                    let w = choose|w: int| 0 <= w < found.len() && found[w] == c.parents[k];
                    assert(more[w] == c.parents[k]);
                }
            },
            Err(_) => {},
        }
    }
}

/// What reading the object under `hash` into stores gives: `NotFound` where
/// nothing is visible under the hash, and otherwise what decoding the
/// record into the stores gives.
pub open spec fn read_into(
    visible: Map<crate::hash::Hash, Seq<u8>>,
    hash: crate::hash::Hash,
    old: Stores,
    new: Stores,
    r: Result<Object, Error>,
) -> bool {
    &&& new.wf()
    &&& crate::store::kept_but(old.blob, old.tree, old.commit, new.blob, new.tree, new.commit, r)
    &&& if visible.contains_key(hash) {
        decoded_into(visible[hash], old.blob, old.tree, old.commit, new@, r)
    } else {
        r == Err::<Object, Error>(Error::NotFound) && new == old
    }
}

/// What reading the blob under `hash` gives: its bytes where the record
/// under the hash is the record of a blob; `NotFound` where nothing is
/// visible under the hash; `TypeMismatch` where the record is framed as
/// another kind, and `CorruptObjectDatabase` otherwise.
pub open spec fn blob_read(
    visible: Map<crate::hash::Hash, Seq<u8>>,
    hash: crate::hash::Hash,
    r: Result<&[u8], Error>,
) -> bool {
    match r {
        Ok(d) => visible.contains_key(hash) && visible[hash] == blob_record(d@),
        Err(e) => if !visible.contains_key(hash) {
            e == Error::NotFound
        } else {
            wrong_kind(visible[hash], ObjectTag::Blob, e) && forall|d: Seq<u8>|
                d.len() <= u64::MAX ==> visible[hash] != #[trigger] blob_record(d)
        },
    }
}

/// What writing `data` under `hash` does to a storage: unless the hash is
/// known already, a buffering storage queues the record and another one
/// shows it at once. Nothing that was visible changes.
pub open spec fn written<S: MogStorage>(
    old: &S,
    new: &S,
    hash: crate::hash::Hash,
    data: Seq<u8>,
) -> bool {
    crate::storage::written_all(old, new, seq![(hash, data)])
}

/// A single write is the writes of a list of one pair.
pub proof fn lemma_written_one<S: MogStorage>(old: &S, new: &S, hash: crate::hash::Hash, data: Seq<u8>)
    requires
        new.wf(),
        new.buffers() == old.buffers(),
        forall|n: nat| new.accepts(n) == old.accepts(n),
        forall|ws: Seq<crate::storage::Pair>| new.shows(ws) == old.shows(ws),
        old.buffers() ==> new.visible() == old.visible() && new.pending() == if put_all(
            old.visible(),
            old.pending(),
        ).contains_key(hash) {
            old.pending()
        } else {
            old.pending().push((hash, data))
        },
        !old.buffers() ==> new.visible() == put(old.visible(), hash, data) && new.pending()
            == old.pending(),
    ensures
        written(old, new, hash, data),
{
    crate::storage::lemma_one(old.visible(), old.pending(), (hash, data));
}

/// A map extended by one key extends the map.
pub proof fn lemma_put_extends(m: Map<crate::hash::Hash, Seq<u8>>, h: crate::hash::Hash, d: Seq<u8>)
    ensures
        part_of(m, put(m, h, d)),
{
}

/// A map with a pair put in is part of every map that holds the map and
/// the pair.
pub proof fn lemma_put_submap(
    m: Map<crate::hash::Hash, Seq<u8>>,
    h: crate::hash::Hash,
    d: Seq<u8>,
    target: Map<crate::hash::Hash, Seq<u8>>,
)
    requires
        part_of(m, target),
        target.contains_key(h),
        target[h] == d,
    ensures
        part_of(put(m, h, d), target),
{

}

/// Being part of a map carries over.
pub proof fn lemma_submap_trans(
    a: Map<crate::hash::Hash, Seq<u8>>,
    b: Map<crate::hash::Hash, Seq<u8>>,
    c: Map<crate::hash::Hash, Seq<u8>>,
)
    requires
        part_of(a, b),
        part_of(b, c),
    ensures
        part_of(a, c),
{

}

} // verus!
