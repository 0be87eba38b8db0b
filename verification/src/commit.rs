//! Commits: a tree, its parents, a timestamp, an author and a message; the
//! payload encoding of a commit.

use crate::error::Error;
use crate::soa::{
    column, enc_hash, lemma_column_injective, lemma_column_len, lemma_encoders, read_hashes,
    write_hashes,
};
use crate::store::{CommitId, CommitStore};
use crate::wire::{
    i64_le, lemma_int_le, lemma_len_prefixed_injective, lemma_split_at, lemma_u32_le_injective,
    len_prefixed, u32_le, Decode, Encode, ReadCursor, WriteCursor,
};
use vstd::prelude::*;

use vstd::string::StringSliceAdditionalSpecFns;
use vstd::utf8::{encode_utf8, encode_utf8_valid_utf8, valid_utf8};

verus! {

/// What a commit is, with its strings as UTF-8 bytes.
pub struct CommitView {
    pub tree: crate::hash::Hash,
    pub parents: Seq<crate::hash::Hash>,
    pub timestamp: i64,
    pub author: Seq<u8>,
    pub message: Seq<u8>,
}

/// Whether a commit can be encoded: the number of parents and the lengths
/// of the strings fit a `u32`, and the strings are well-formed UTF-8.
pub open spec fn commit_ok(c: CommitView) -> bool {
    &&& c.parents.len() <= u32::MAX
    &&& c.author.len() <= u32::MAX
    &&& c.message.len() <= u32::MAX
    &&& valid_utf8(c.author)
    &&& valid_utf8(c.message)
}

/// The payload of a commit: the tree, the parent count, the parents, the
/// timestamp, and the author and the message behind their lengths.
pub open spec fn commit_payload(c: CommitView) -> Seq<u8> {
    c.tree@ + u32_le(c.parents.len() as u32) + column(c.parents, enc_hash()) + i64_le(c.timestamp)
        + len_prefixed(c.author) + len_prefixed(c.message)
}

/// A payload read from the front of a buffer, field by field, agrees with
/// any commit whose payload the buffer starts with. The first `k` fields
/// have been read, each followed by the bytes `r1` to `r6`.
pub proof fn lemma_commit_fields(
    c: CommitView,
    tail: Seq<u8>,
    rest0: Seq<u8>,
    k: int,
    tree: crate::hash::Hash,
    r1: Seq<u8>,
    p: u32,
    r2: Seq<u8>,
    parents: Seq<crate::hash::Hash>,
    r3: Seq<u8>,
    ts: i64,
    r4: Seq<u8>,
    author: Seq<u8>,
    r5: Seq<u8>,
    message: Seq<u8>,
    r6: Seq<u8>,
)
    requires
        commit_ok(c),
        rest0 == commit_payload(c) + tail,
        k >= 1 ==> rest0 == tree@ + r1,
        k >= 2 ==> r1 == u32_le(p) + r2,
        k >= 3 ==> parents.len() == p && r2 == column(parents, enc_hash()) + r3,
        k >= 4 ==> r3 == i64_le(ts) + r4,
        k >= 5 ==> author.len() <= u32::MAX && r4 == len_prefixed(author) + r5,
        k >= 6 ==> message.len() <= u32::MAX && r5 == len_prefixed(message) + r6,
    ensures
        rest0.len() >= 32,
        k >= 1 ==> tree == c.tree && r1.len() >= 4,
        k >= 2 ==> p == c.parents.len() && r2.len() >= 32 * p,
        k >= 3 ==> parents == c.parents && r3.len() >= 8,
        k >= 4 ==> ts == c.timestamp && r4 == len_prefixed(c.author) + (len_prefixed(c.message)
            + tail),
        k >= 5 ==> author == c.author && r5 == len_prefixed(c.message) + tail,
        k >= 6 ==> message == c.message && r6 == tail,
{
    lemma_int_le();
    lemma_encoders();
    lemma_column_len(c.parents, enc_hash(), 32);
    let q5 = len_prefixed(c.message) + tail;
    let q4 = len_prefixed(c.author) + q5;
    let q3 = i64_le(c.timestamp) + q4;
    let q2 = column(c.parents, enc_hash()) + q3;
    let q1 = u32_le(c.parents.len() as u32) + q2;
    assert(commit_payload(c) + tail =~= c.tree@ + q1);
    if k >= 1 {
        lemma_split_at(tree@, r1, c.tree@, q1);
        assert(tree =~= c.tree);
    }
    if k >= 2 {
        lemma_u32_le_injective(p, c.parents.len() as u32, r2, q2);
    }
    if k >= 3 {
        lemma_column_injective(parents, r3, c.parents, q3, enc_hash(), 32);
    }
    if k >= 4 {
        lemma_split_at(i64_le(ts), r4, i64_le(c.timestamp), q4);
    }
    if k >= 5 {
        lemma_len_prefixed_injective(author, r5, c.author, q5);
    }
    if k >= 6 {
        lemma_len_prefixed_injective(message, r6, c.message, tail);
    }
}

/// A buffer whose fields were read as in `lemma_commit_fields` up to field
/// `k`, where the next field cannot be read, starts with the payload of no
/// commit.
pub proof fn lemma_commit_unreadable(
    rest0: Seq<u8>,
    k: int,
    tree: crate::hash::Hash,
    r1: Seq<u8>,
    p: u32,
    r2: Seq<u8>,
    parents: Seq<crate::hash::Hash>,
    r3: Seq<u8>,
    ts: i64,
    r4: Seq<u8>,
    author: Seq<u8>,
    r5: Seq<u8>,
)
    requires
        0 <= k <= 5,
        k >= 1 ==> rest0 == tree@ + r1,
        k >= 2 ==> r1 == u32_le(p) + r2,
        k >= 3 ==> parents.len() == p && r2 == column(parents, enc_hash()) + r3,
        k >= 4 ==> r3 == i64_le(ts) + r4,
        k >= 5 ==> author.len() <= u32::MAX && r4 == len_prefixed(author) + r5,
        k == 0 ==> rest0.len() < 32,
        k == 1 ==> r1.len() < 4,
        k == 2 ==> r2.len() < 32 * p,
        k == 3 ==> r3.len() < 8,
        k == 4 ==> forall|s: Seq<u8>, t: Seq<u8>|
            s.len() <= u32::MAX && valid_utf8(s) ==> r4 != #[trigger] (len_prefixed(s) + t),
        k == 5 ==> forall|s: Seq<u8>, t: Seq<u8>|
            s.len() <= u32::MAX && valid_utf8(s) ==> r5 != #[trigger] (len_prefixed(s) + t),
    ensures
        forall|c: CommitView, tail: Seq<u8>|
            commit_ok(c) ==> rest0 != #[trigger] (commit_payload(c) + tail),
{
    let e0 = Seq::<u8>::empty();
    assert forall|c: CommitView, tail: Seq<u8>| commit_ok(c) implies rest0
        != #[trigger] (commit_payload(c) + tail) by {
        if rest0 == commit_payload(c) + tail {
            lemma_commit_fields(
                c,
                tail,
                rest0,
                k,
                tree,
                r1,
                p,
                r2,
                parents,
                r3,
                ts,
                r4,
                author,
                r5,
                e0,
                e0,
            );
            lemma_int_le();
            if k == 4 {
                assert(r4 == len_prefixed(c.author) + (len_prefixed(c.message) + tail));
            }
            if k == 5 {
                assert(r5 == len_prefixed(c.message) + tail);
            }
        }
    }
}

/// A commit is determined by its payload, whatever follows it.
pub proof fn lemma_commit_payload_injective(a: CommitView, ta: Seq<u8>, b: CommitView, tb: Seq<u8>)
    requires
        commit_ok(a),
        commit_ok(b),
        commit_payload(a) + ta == commit_payload(b) + tb,
    ensures
        a == b,
        ta == tb,
{
    let r6 = tb;
    let r5 = len_prefixed(b.message) + r6;
    let r4 = len_prefixed(b.author) + r5;
    let r3 = i64_le(b.timestamp) + r4;
    let r2 = column(b.parents, enc_hash()) + r3;
    let r1 = u32_le(b.parents.len() as u32) + r2;
    assert(commit_payload(b) + tb =~= b.tree@ + r1);
    lemma_commit_fields(
        a,
        ta,
        commit_payload(a) + ta,
        6,
        b.tree,
        r1,
        b.parents.len() as u32,
        r2,
        b.parents,
        r3,
        b.timestamp,
        r4,
        b.author,
        r5,
        b.message,
        r6,
    );
}

/// A commit payload that owns its fields.
pub struct CommitPayloadOwned {
    pub tree: crate::hash::Hash,
    pub parents: Vec<crate::hash::Hash>,
    pub timestamp: i64,
    pub author: String,
    pub message: String,
}

/// A commit payload over borrowed fields.
pub struct CommitPayloadView<'a> {
    pub tree: crate::hash::Hash,
    pub parents: &'a [crate::hash::Hash],
    pub timestamp: i64,
    pub author: &'a str,
    pub message: &'a str,
}

/// A commit payload that stands in a store, by id.
pub struct CommitPayloadRef<'a> {
    pub store: &'a CommitStore,
    pub id: CommitId,
}

impl View for CommitPayloadOwned {
    type V = CommitView;

    open spec fn view(&self) -> CommitView {
        CommitView {
            tree: self.tree,
            parents: self.parents@,
            timestamp: self.timestamp,
            author: encode_utf8(self.author@),
            message: encode_utf8(self.message@),
        }
    }
}

impl<'a> View for CommitPayloadView<'a> {
    type V = CommitView;

    open spec fn view(&self) -> CommitView {
        CommitView {
            tree: self.tree,
            parents: self.parents@,
            timestamp: self.timestamp,
            author: self.author.spec_bytes(),
            message: self.message.spec_bytes(),
        }
    }
}

impl CommitPayloadOwned {
    /// The payload made of these fields.
    pub fn new(
        tree: crate::hash::Hash,
        parents: Vec<crate::hash::Hash>,
        timestamp: i64,
        author: String,
        message: String,
    ) -> (p: Self)
        ensures
            p.tree == tree,
            p.parents == parents,
            p.timestamp == timestamp,
            p.author == author,
            p.message == message,
    {
        Self { tree, parents, timestamp, author, message }
    }

    /// The payload, borrowed.
    pub fn payload_view(&self) -> (v: CommitPayloadView<'_>)
        ensures
            v@ == self@,
    {
        CommitPayloadView {
            tree: self.tree,
            parents: self.parents.as_slice(),
            timestamp: self.timestamp,
            author: self.author.as_str(),
            message: self.message.as_str(),
        }
    }
}

impl<'a> CommitPayloadRef<'a> {
    /// Names commit `id` of `store`.
    pub fn new(store: &'a CommitStore, id: CommitId) -> (p: Self)
        ensures
            p.store == store,
            p.id == id,
    {
        Self { store, id }
    }

    /// The payload, borrowed from the store.
    pub fn payload_view(self) -> (v: CommitPayloadView<'a>)
        requires
            self.store.wf(),
            self.id.index() < self.store@.len(),
        ensures
            v@ == self.store@[self.id.index() as int],
            commit_ok(v@),
    {
        proof {
            self.store.lemma_commit_ok(self.id.index() as int);
        }
        CommitPayloadView {
            tree: self.store.get_tree(self.id),
            parents: self.store.get_parents(self.id),
            timestamp: self.store.get_timestamp(self.id),
            author: self.store.get_author(self.id),
            message: self.store.get_message(self.id),
        }
    }
}

/// Reads the payload of a commit off the front of the cursor. It succeeds
/// exactly when the unread bytes start with the payload of an encodable
/// commit, and returns that commit.
#[verifier::spinoff_prover]
pub fn read_commit(r: &mut ReadCursor<'_>) -> (res: Result<CommitPayloadOwned, Error>)
    ensures
        match res {
            Ok(p) => commit_ok(p@) && old(r).rest() == commit_payload(p@) + final(r).rest(),
            Err(e) => e == Error::CorruptObjectDatabase && forall|c: CommitView, tail: Seq<u8>|
                commit_ok(c) ==> old(r).rest() != #[trigger] (commit_payload(c) + tail),
        },
{
    let ghost rest0 = r.rest();
    let ghost e0 = Seq::<u8>::empty();
    let ghost h0 = Seq::<crate::hash::Hash>::empty();
    let ghost z: crate::hash::Hash = arbitrary();
    let tree = match r.read_hash() {
        Ok(h) => h,
        Err(e) => {
            proof {
                lemma_commit_unreadable(rest0, 0, z, e0, 0, e0, h0, e0, 0, e0, e0, e0);
            }
            return Err(e);
        },
    };
    let ghost r1 = r.rest();
    let p = match r.read_u32() {
        Ok(p) => p,
        Err(e) => {
            proof {
                lemma_commit_unreadable(rest0, 1, tree, r1, 0, e0, h0, e0, 0, e0, e0, e0);
            }
            return Err(e);
        },
    };
    let ghost r2 = r.rest();
    let parents = match read_hashes(r, p as usize) {
        Ok(v) => v,
        Err(e) => {
            proof {
                lemma_commit_unreadable(rest0, 2, tree, r1, p, r2, h0, e0, 0, e0, e0, e0);
            }
            return Err(e);
        },
    };
    let ghost r3 = r.rest();
    let timestamp = match r.read_i64() {
        Ok(t) => t,
        Err(e) => {
            proof {
                lemma_commit_unreadable(rest0, 3, tree, r1, p, r2, parents@, r3, 0, e0, e0, e0);
            }
            return Err(e);
        },
    };
    let ghost r4 = r.rest();
    let author = match r.read_len_prefixed_str() {
        Ok(s) => s,
        Err(e) => {
            proof {
                lemma_commit_unreadable(
                    rest0,
                    4,
                    tree,
                    r1,
                    p,
                    r2,
                    parents@,
                    r3,
                    timestamp,
                    r4,
                    e0,
                    e0,
                );
            }
            return Err(e);
        },
    };
    let ghost r5 = r.rest();
    let message = match r.read_len_prefixed_str() {
        Ok(s) => s,
        Err(e) => {
            proof {
                lemma_commit_unreadable(
                    rest0,
                    5,
                    tree,
                    r1,
                    p,
                    r2,
                    parents@,
                    r3,
                    timestamp,
                    r4,
                    author.spec_bytes(),
                    r5,
                );
            }
            return Err(e);
        },
    };
    let out = CommitPayloadOwned::new(
        tree,
        parents,
        timestamp,
        author.to_owned(),
        message.to_owned(),
    );
    proof {
        encode_utf8_valid_utf8(author@);
        encode_utf8_valid_utf8(message@);
        assert(rest0 =~= commit_payload(out@) + r.rest());
    }
    Ok(out)
}

/// Decodes a commit payload. It succeeds exactly when `data` is the payload
/// of an encodable commit, with no byte after it, and returns that commit.
pub fn decode_commit(data: &[u8]) -> (res: Result<CommitPayloadOwned, Error>)
    ensures
        match res {
            Ok(p) => commit_ok(p@) && data@ == commit_payload(p@),
            Err(e) => e == Error::CorruptObjectDatabase && forall|c: CommitView|
                commit_ok(c) ==> data@ != #[trigger] commit_payload(c),
        },
{
    let mut r = ReadCursor::new(data);
    let ghost e0 = Seq::<u8>::empty();
    match read_commit(&mut r) {
        Ok(p) => {
            if r.at_end() {
                assert(r.rest() =~= e0);
                assert(commit_payload(p@) + r.rest() =~= commit_payload(p@));
                Ok(p)
            } else {
                proof {
                    assert forall|c: CommitView| commit_ok(c) implies data@
                        != #[trigger] commit_payload(c) by {
                        if data@ == commit_payload(c) {
                            assert(commit_payload(c) + e0 =~= commit_payload(c));
                            lemma_commit_payload_injective(p@, r.rest(), c, e0);
                        }
                    }
                }
                Err(Error::CorruptObjectDatabase)
            }
        },
        Err(e) => {
            proof {
                assert forall|c: CommitView| commit_ok(c) implies data@
                    != #[trigger] commit_payload(c) by {
                    assert(commit_payload(c) + e0 =~= commit_payload(c));
                }
            }
            Err(e)
        },
    }
}

impl Decode for CommitPayloadOwned {
    open spec fn wire(&self) -> Seq<u8> {
        commit_payload(self@)
    }

    open spec fn fits(&self) -> bool {
        commit_ok(self@)
    }

    fn decode(r: &mut ReadCursor<'_>) -> (res: Result<Self, Error>) {
        read_commit(r)
    }
}

impl Encode for CommitPayloadView<'_> {
    open spec fn wire(&self) -> Seq<u8> {
        commit_payload(self@)
    }

    open spec fn fits(&self) -> bool {
        commit_ok(self@)
    }

    fn encode(&self, w: &mut WriteCursor<'_>) {
        w.write_hash(&self.tree);
        w.write_u32(self.parents.len() as u32);
        write_hashes(w, self.parents);
        w.write_i64(self.timestamp);
        w.write_len_prefixed_str(self.author);
        w.write_len_prefixed_str(self.message);
        proof {
            assert(w.written() =~= old(w).written() + commit_payload(self@));
        }
    }
}

/// Where the hash of a new commit is written.
pub enum HeadUpdate {
    /// Into the ref of the branch that is checked out.
    Ref { path: String, content: String },
    /// Into `HEAD` itself, which is detached.
    Head { content: String },
}

/// The parents of a commit with at most one parent.
pub open spec fn parent_seq(parent: Option<crate::hash::Hash>) -> Seq<crate::hash::Hash> {
    match parent {
        Some(p) => seq![p],
        None => Seq::empty(),
    }
}

/// What a commit of `c` answers: `StoreFull` where the commit store has no
/// room for it or the storage does not take its record, else what the
/// storage answers to the flush of its queue with the record behind it.
pub open spec fn commit_answer<S: crate::storage::MogStorage>(
    repo: &crate::repository::Repository<S>,
    c: CommitView,
) -> Result<(), Error> {
    let record = crate::object::commit_record(c);
    if !repo.stores.commit.has_room(c.parents.len(), c.author.len(), c.message.len())
        || !repo.storage.accepts(record.len()) {
        Err(Error::StoreFull)
    } else {
        repo.storage.shows(
            crate::storage::pending_after(
                &repo.storage,
                seq![(crate::hash::blake3_digest(record), record)],
            ),
        )
    }
}

/// Builds the commit of `tree` on `parent`, stores and writes it, flushes
/// the storage, and says where its hash is to be written: into the ref that
/// `head`, the content of `HEAD`, names, or into `HEAD` itself where it is
/// detached. A store or a storage without room is `StoreFull`; a table
/// without a free bucket is `HashTableFull`.
pub fn commit<S: crate::storage::MogStorage>(
    repo: &mut crate::repository::Repository<S>,
    tree: crate::hash::Hash,
    parent: Option<crate::hash::Hash>,
    timestamp: i64,
    author: &str,
    message: &str,
    head: &str,
) -> (r: Result<(crate::hash::Hash, HeadUpdate), Error>)
    requires
        old(repo).wf(),
    ensures
        final(repo).wf(),
        final(repo).stores.blob == old(repo).stores.blob,
        final(repo).stores.tree == old(repo).stores.tree,
        crate::storage::part_of(old(repo).storage.visible(), final(repo).storage.visible()),
        match r {
            Ok((h, update)) => {
                let c = CommitView {
                    tree,
                    parents: parent_seq(parent),
                    timestamp,
                    author: author.spec_bytes(),
                    message: message.spec_bytes(),
                };
                &&& commit_answer(old(repo), c) is Ok
                &&& h == crate::hash::blake3_digest(crate::object::commit_record(c))
                &&& final(repo).stores.commit@ == old(repo).stores.commit@.push(c)
                &&& final(repo).storage.visible().contains_key(h)
                &&& final(repo).storage.visible() == crate::storage::flushed_after(
                    &old(repo).storage,
                    seq![(h, crate::object::commit_record(c))],
                )
                &&& final(repo).storage.pending() == Seq::<crate::storage::Pair>::empty()
                &&& match update {
                    HeadUpdate::Ref { path, content } => crate::refs::head_of(head@) == (
                        true,
                        path@,
                    ) && ref_names(content@, h),
                    HeadUpdate::Head { content } => crate::refs::head_of(head@).0 == false
                        && ref_names(content@, h),
                }
            },
            Err(e) => {
                let c = CommitView {
                    tree,
                    parents: parent_seq(parent),
                    timestamp,
                    author: author.spec_bytes(),
                    message: message.spec_bytes(),
                };
                let room = old(repo).stores.commit.has_room(
                    c.parents.len(),
                    c.author.len(),
                    c.message.len(),
                );
                &&& e == Error::StoreFull || e == Error::HashTableFull
                &&& commit_answer(old(repo), c) == Err::<(), Error>(e)
                &&& !room ==> final(repo).stores == old(repo).stores && final(repo).storage == old(repo).storage
                &&& room ==> final(repo).stores.commit@ == old(repo).stores.commit@.push(c)
                &&& room && !old(repo).storage.accepts(crate::object::commit_record(c).len())
                    ==> final(repo).storage == old(repo).storage
            },
        },
{
    let mut parents: Vec<crate::hash::Hash> = Vec::new();
    match parent {
        Some(p) => {
            parents.push(p);
        },
        None => {},
    }
    assert(parents@ =~= parent_seq(parent));
    if !repo.stores.commit.can_push(parents.len(), author, message) {
        assert(crate::storage::part_of(repo.storage.visible(), repo.storage.visible()));
        return Err(Error::StoreFull);
    }
    let id = repo.stores.commit.push(tree, parents.as_slice(), timestamp, author, message);
    let ghost before = repo.storage.visible();
    let ghost queue = repo.storage.pending();
    let hash = match repo.try_write_object(crate::object::Object::Commit(id)) {
        Ok(h) => h,
        Err(e) => {
            assert(crate::storage::part_of(repo.storage.visible(), repo.storage.visible()));
            return Err(e);
        },
    };
    let ghost mid = repo.storage.visible();
    proof {
        let c = CommitView {
            tree,
            parents: parent_seq(parent),
            timestamp,
            author: author.spec_bytes(),
            message: message.spec_bytes(),
        };
        crate::storage::lemma_one(before, queue, (hash, crate::object::commit_record(c)));
        crate::hash_object::lemma_written_then_flushed(
            before,
            queue,
            hash,
            crate::object::commit_record(c),
            old(repo).storage.buffers(),
        );
    }
    match repo.storage.flush() {
        Ok(()) => {},
        Err(e) => {
            proof {
                crate::repository::lemma_submap_trans(
                    repo.object_cache.map(),
                    mid,
                    repo.storage.visible(),
                );
                crate::repository::lemma_submap_trans(before, mid, repo.storage.visible());
            }
            return Err(e);
        },
    }
    proof {
        crate::repository::lemma_submap_trans(repo.object_cache.map(), mid, repo.storage.visible());
        crate::repository::lemma_submap_trans(before, mid, repo.storage.visible());
    }
    let content = crate::refs::ref_content(&hash);
    let update = match crate::refs::parse_head(head) {
        crate::refs::Head::Symbolic(path) => HeadUpdate::Ref { path, content },
        crate::refs::Head::Detached(_) => HeadUpdate::Head { content },
    };
    Ok((hash, update))
}

/// The content of a ref file names `h`: it is the hex of `h` and a
/// newline.
pub open spec fn ref_names(content: Seq<char>, h: crate::hash::Hash) -> bool {
    exists|hex: Seq<char>| encode_utf8(hex) == crate::hash::hex_of(h@) && content == hex + "\n"@
}

} // verus!
