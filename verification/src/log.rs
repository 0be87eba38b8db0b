//! The history of a commit along first parents.

use crate::commit::{commit_ok, CommitPayloadOwned, CommitView};
use crate::error::Error;
use crate::object::{commit_record, decode_commit_record, framed, ObjectTag, ObjectView};
use crate::repository::Repository;
use crate::storage::MogStorage;
use vstd::prelude::*;

verus! {

/// What reading the commit under `h` gives: its fields; `NotFound` where
/// nothing is visible under the hash; `TypeMismatch` where the record is
/// framed as another kind, and `CorruptObjectDatabase` where it is the
/// record of no commit otherwise.
pub open spec fn commit_read(
    visible: Map<crate::hash::Hash, Seq<u8>>,
    h: crate::hash::Hash,
) -> Result<CommitView, Error> {
    if !visible.contains_key(h) {
        Err(Error::NotFound)
    } else if exists|c: CommitView| commit_ok(c) && #[trigger] commit_record(c) == visible[h] {
        Ok(choose|c: CommitView| commit_ok(c) && #[trigger] commit_record(c) == visible[h])
    } else if exists|tag: ObjectTag, p: Seq<u8>|
        tag != ObjectTag::Commit && visible[h] == #[trigger] framed(tag, p) {
        Err(Error::TypeMismatch)
    } else {
        Err(Error::CorruptObjectDatabase)
    }
}

/// The commit under `h`, read from the storage, past the cache and the
/// stores.
pub fn read_commit<S: MogStorage>(repo: &Repository<S>, h: &crate::hash::Hash) -> (r: Result<
    CommitPayloadOwned,
    Error,
>)
    requires
        repo.wf(),
    ensures
        match r {
            Ok(c) => commit_read(repo.storage.visible(), *h) == Ok::<CommitView, Error>(c@),
            Err(e) => commit_read(repo.storage.visible(), *h) == Err::<CommitView, Error>(e),
        },
{
    let ghost visible = repo.storage.visible();
    let data = match repo.storage.read(h) {
        Ok(d) => d,
        Err(e) => {
            return Err(e);
        },
    };
    match decode_commit_record(data) {
        Ok(c) => {
            proof {
                let x = choose|x: CommitView| commit_ok(x) && #[trigger] commit_record(x) == visible[*h];
                crate::object::lemma_record_injective(ObjectView::Commit(c@), ObjectView::Commit(x));
            }
            Ok(c)
        },
        Err(e) => Err(e),
    }
}

/// A commit of the history: its hash and its fields.
pub struct LogEntry {
    pub hash: crate::hash::Hash,
    pub commit: CommitPayloadOwned,
}

/// What the entries stand for.
pub open spec fn log_views(entries: Seq<LogEntry>) -> Seq<(crate::hash::Hash, CommitView)> {
    Seq::new(entries.len(), |i: int| (entries[i].hash, entries[i].commit@))
}

/// The history of the commit under `h` along first parents, at most `fuel`
/// commits long: the commit, then the history of its first parent. A commit
/// that cannot be read fails the history; a history longer than `fuel` is
/// `InvalidInput`.
pub open spec fn history(
    visible: Map<crate::hash::Hash, Seq<u8>>,
    h: crate::hash::Hash,
    fuel: nat,
) -> Result<Seq<(crate::hash::Hash, CommitView)>, Error>
    decreases fuel,
{
    if fuel == 0 {
        Err(Error::InvalidInput)
    } else {
        match commit_read(visible, h) {
            Err(e) => Err(e),
            Ok(c) => if c.parents.len() == 0 {
                Ok(seq![(h, c)])
            } else {
                match history(visible, c.parents[0], (fuel - 1) as nat) {
                    Err(e) => Err(e),
                    Ok(rest) => Ok(seq![(h, c)] + rest),
                }
            },
        }
    }
}

/// `head`, then the history `tail`; or the error of `tail`.
pub open spec fn after(
    head: Seq<(crate::hash::Hash, CommitView)>,
    tail: Result<Seq<(crate::hash::Hash, CommitView)>, Error>,
) -> Result<Seq<(crate::hash::Hash, CommitView)>, Error> {
    match tail {
        Ok(t) => Ok(head + t),
        Err(e) => Err(e),
    }
}

/// The history of the commit under `head` along first parents, newest
/// first, at most `limit` commits long.
pub fn log<S: MogStorage>(repo: &Repository<S>, head: crate::hash::Hash, limit: usize) -> (r:
    Result<Vec<LogEntry>, Error>)
    requires
        repo.wf(),
    ensures
        match r {
            Ok(entries) => history(repo.storage.visible(), head, limit as nat) == Ok::<
                Seq<(crate::hash::Hash, CommitView)>,
                Error,
            >(log_views(entries@)),
            Err(e) => history(repo.storage.visible(), head, limit as nat) == Err::<
                Seq<(crate::hash::Hash, CommitView)>,
                Error,
            >(e),
        },
{
    let ghost visible = repo.storage.visible();
    let ghost goal = history(visible, head, limit as nat);
    let mut entries: Vec<LogEntry> = Vec::new();
    let mut current = head;
    let mut left = limit;
    proof {
        assert(log_views(entries@) =~= Seq::empty());
        lemma_after_empty(goal);
    }
    while left > 0
        invariant
            repo.wf(),
            visible == repo.storage.visible(),
            goal == history(visible, head, limit as nat),
            goal == after(log_views(entries@), history(visible, current, left as nat)),
        decreases left,
    {
        let ghost step = history(visible, current, left as nat);
        let c = match read_commit(repo, &current) {
            Ok(c) => c,
            Err(e) => {
                assert(step == Err::<Seq<(crate::hash::Hash, CommitView)>, Error>(e));
                return Err(e);
            },
        };
        let ghost here = (current, c@);
        let ghost prev = log_views(entries@);
        let first = if c.parents.len() == 0 { None } else { Some(c.parents[0]) };
        entries.push(LogEntry { hash: current, commit: c });
        proof {
            assert(log_views(entries@) =~= prev.push(here));
            assert(prev + seq![here] =~= prev.push(here));
        }
        match first {
            None => {
                assert(step == Ok::<Seq<(crate::hash::Hash, CommitView)>, Error>(seq![here]));
                return Ok(entries);
            },
            Some(p) => {
                proof {
                    assert(step == after(seq![here], history(visible, p, (left - 1) as nat)));
                    lemma_after_after(prev, seq![here], history(visible, p, (left - 1) as nat));
                }
                current = p;
                left -= 1;
            },
        }
    }
    Err(Error::InvalidInput)
}

/// Nothing before a history is that history.
pub proof fn lemma_after_empty(tail: Result<Seq<(crate::hash::Hash, CommitView)>, Error>)
    ensures
        after(Seq::empty(), tail) == tail,
{
    match tail {
        Ok(t) => {
            assert(Seq::<(crate::hash::Hash, CommitView)>::empty() + t =~= t);
        },
        Err(_) => {},
    }
}

/// `a`, then `b`, then a history is `a + b`, then the history.
pub proof fn lemma_after_after(
    a: Seq<(crate::hash::Hash, CommitView)>,
    b: Seq<(crate::hash::Hash, CommitView)>,
    tail: Result<Seq<(crate::hash::Hash, CommitView)>, Error>,
)
    ensures
        after(a, after(b, tail)) == after(a + b, tail),
{
    match tail {
        Ok(t) => {
            assert(a + (b + t) =~= (a + b) + t);
        },
        Err(_) => {},
    }
}

} // verus!
