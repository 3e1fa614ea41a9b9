//! The two stores of the ledger: polls by hash, and voting histories by
//! caller. Both keep their entries in insertion order and hold no key twice.

use crate::identity::{copy_bytes, Identity, MAX_IDENTITY_BYTES};
use crate::keyed::{
    assoc, byte_views, bytes_distinct, distinct, lemma_assoc_absent, lemma_assoc_at,
    lemma_assoc_push, lemma_assoc_update, text_views, texts_distinct,
};
use crate::user::{UserModel, UserVoteRecord};
use crate::vote::{RecordModel, VoteRecord};
use vstd::prelude::*;

verus! {

/// The polls, each stored under its own hash.
#[derive(Debug)]
pub struct VoteStore {
    pub records: Vec<VoteRecord>,
}

/// The hashes of the polls, in order.
pub open spec fn record_keys(records: Seq<VoteRecord>) -> Seq<Seq<char>> {
    Seq::new(records.len(), |i: int| records[i].hash@)
}

/// The models of the polls, in order.
pub open spec fn record_vals(records: Seq<VoteRecord>) -> Seq<RecordModel> {
    Seq::new(records.len(), |i: int| records[i]@)
}

impl View for VoteStore {
    type V = Map<Seq<char>, RecordModel>;

    open spec fn view(&self) -> Map<Seq<char>, RecordModel> {
        assoc(record_keys(self.records@), record_vals(self.records@))
    }
}

impl Clone for VoteStore {
    fn clone(&self) -> (out: Self)
        ensures
            record_keys(out.records@) == record_keys(self.records@),
            record_vals(out.records@) == record_vals(self.records@),
            out@ == self@,
            self.wf() ==> out.wf(),
    {
        let mut records: Vec<VoteRecord> = Vec::new();
        let mut i: usize = 0;
        while i < self.records.len()
            invariant
                i <= self.records.len(),
                records.len() == i,
                forall|k: int| 0 <= k < i ==> (#[trigger] records@[k])@ == self.records@[k]@,
            decreases self.records.len() - i,
        {
            records.push(self.records[i].clone());
            i += 1;
        }
        let out = VoteStore { records };
        assert(record_keys(out.records@) =~= record_keys(self.records@));
        assert(record_vals(out.records@) =~= record_vals(self.records@));
        out
    }
}

impl VoteStore {
    /// No hash occurs twice, and every poll is well formed.
    pub open spec fn wf(&self) -> bool {
        &&& distinct(record_keys(self.records@))
        &&& forall|i: int| 0 <= i < self.records@.len() ==> (#[trigger] self.records@[i]).wf()
    }

    /// A store without polls.
    pub fn new() -> (out: Self)
        ensures
            out.wf(),
            out@ == Map::<Seq<char>, RecordModel>::empty(),
            out.records@.len() == 0,
    {
        let out = VoteStore { records: Vec::new() };
        assert(out@ =~= Map::<Seq<char>, RecordModel>::empty());
        out
    }

    /// Whether the store is well formed.
    pub fn is_valid(&self) -> (ok: bool)
        ensures
            ok == self.wf(),
    {
        let mut hashes: Vec<String> = Vec::new();
        let mut i: usize = 0;
        while i < self.records.len()
            invariant
                i <= self.records.len(),
                hashes.len() == i,
                forall|k: int| 0 <= k < i ==> hashes@[k]@ == self.records@[k].hash@,
                forall|k: int| 0 <= k < i ==> (#[trigger] self.records@[k]).wf(),
            decreases self.records.len() - i,
        {
            if !self.records[i].is_valid() {
                return false;
            }
            hashes.push(self.records[i].hash.clone());
            i += 1;
        }
        assert(text_views(hashes@) =~= record_keys(self.records@));
        texts_distinct(&hashes)
    }

    /// The position of the poll stored under `hash`, if there is one.
    pub fn find(&self, hash: &String) -> (at: Option<usize>)
        requires
            self.wf(),
        ensures
            at is Some == self@.dom().contains(hash@),
            at matches Some(i) ==> i < self.records@.len() && self.records@[i as int].hash@ == hash@
                && self@[hash@] == self.records@[i as int]@,
    {
        let mut i: usize = 0;
        while i < self.records.len()
            invariant
                i <= self.records.len(),
                self.wf(),
                forall|k: int| 0 <= k < i ==> record_keys(self.records@)[k] != hash@,
            decreases self.records.len() - i,
        {
            if self.records[i].hash == *hash {
                proof {
                    assert(record_keys(self.records@)[i as int] == hash@);
                    lemma_assoc_at(
                        record_keys(self.records@),
                        record_vals(self.records@),
                        i as int,
                    );
                }
                return Some(i);
            }
            i += 1;
        }
        proof {
            lemma_assoc_absent(record_keys(self.records@), record_vals(self.records@), hash@);
        }
        None
    }

    /// Stores a poll whose hash the store does not hold.
    pub fn add(&mut self, record: VoteRecord)
        requires
            old(self).wf(),
            record.wf(),
            !old(self)@.dom().contains(record.hash@),
        ensures
            final(self).wf(),
            final(self)@ == old(self)@.insert(record.hash@, record@),
            final(self).records@ == old(self).records@.push(record),
    {
        proof {
            lemma_assoc_push(
                record_keys(self.records@),
                record_vals(self.records@),
                record.hash@,
                record@,
            );
        }
        self.records.push(record);
        assert(record_keys(self.records@) =~= record_keys(old(self).records@).push(record.hash@));
        assert(record_vals(self.records@) =~= record_vals(old(self).records@).push(record@));
    }

    /// Replaces the poll at position `at` by another state of the same poll.
    pub fn put(&mut self, at: usize, record: VoteRecord)
        requires
            old(self).wf(),
            record.wf(),
            at < old(self).records@.len(),
            old(self).records@[at as int].hash@ == record.hash@,
        ensures
            final(self).wf(),
            final(self)@ == old(self)@.insert(record.hash@, record@),
            final(self).records@ == old(self).records@.update(at as int, record),
    {
        proof {
            lemma_assoc_update(
                record_keys(self.records@),
                record_vals(self.records@),
                at as int,
                record@,
            );
        }
        self.records.set(at, record);
        assert(record_keys(self.records@) =~= record_keys(old(self).records@));
        assert(record_vals(self.records@) =~= record_vals(old(self).records@).update(
            at as int,
            record@,
        ));
    }
}

/// A caller with their voting history.
#[derive(Debug)]
pub struct UserEntry {
    pub principal: Identity,
    pub record: UserVoteRecord,
}

/// The voting histories, each stored under its caller.
#[derive(Debug)]
pub struct UserVoteStore {
    pub entries: Vec<UserEntry>,
}

/// The callers of the entries, in order.
pub open spec fn user_keys(entries: Seq<UserEntry>) -> Seq<Seq<u8>> {
    Seq::new(entries.len(), |i: int| entries[i].principal@)
}

/// The histories of the entries, in order.
pub open spec fn user_vals(entries: Seq<UserEntry>) -> Seq<UserModel> {
    Seq::new(entries.len(), |i: int| entries[i].record@)
}

impl View for UserVoteStore {
    type V = Map<Seq<u8>, UserModel>;

    open spec fn view(&self) -> Map<Seq<u8>, UserModel> {
        assoc(user_keys(self.entries@), user_vals(self.entries@))
    }
}

impl Clone for UserVoteStore {
    fn clone(&self) -> (out: Self)
        ensures
            user_keys(out.entries@) == user_keys(self.entries@),
            user_vals(out.entries@) == user_vals(self.entries@),
            out@ == self@,
            self.wf() ==> out.wf(),
    {
        let mut entries: Vec<UserEntry> = Vec::new();
        let mut i: usize = 0;
        while i < self.entries.len()
            invariant
                i <= self.entries.len(),
                entries.len() == i,
                forall|k: int|
                    0 <= k < i ==> (#[trigger] entries@[k]).principal@ == self.entries@[k].principal@
                        && entries@[k].record@ == self.entries@[k].record@ && (
                    self.entries@[k].record.wf() ==> entries@[k].record.wf()),
            decreases self.entries.len() - i,
        {
            entries.push(
                UserEntry {
                    principal: self.entries[i].principal.clone(),
                    record: self.entries[i].record.clone(),
                },
            );
            i += 1;
        }
        let out = UserVoteStore { entries };
        assert(user_keys(out.entries@) =~= user_keys(self.entries@));
        assert(user_vals(out.entries@) =~= user_vals(self.entries@));
        proof {
            if self.wf() {
                assert forall|k: int| 0 <= k < out.entries@.len() implies (
                #[trigger] out.entries@[k]).principal.wf() && out.entries@[k].record.wf() by {
                    assert(self.entries@[k].principal.wf());
                }
            }
        }
        out
    }
}

impl UserVoteStore {
    /// No caller occurs twice, and every caller and history is well formed.
    pub open spec fn wf(&self) -> bool {
        &&& distinct(user_keys(self.entries@))
        &&& forall|i: int|
            0 <= i < self.entries@.len() ==> (#[trigger] self.entries@[i]).principal.wf()
                && self.entries@[i].record.wf()
    }

    /// A store without callers.
    pub fn new() -> (out: Self)
        ensures
            out.wf(),
            out@ == Map::<Seq<u8>, UserModel>::empty(),
    {
        let out = UserVoteStore { entries: Vec::new() };
        assert(out@ =~= Map::<Seq<u8>, UserModel>::empty());
        out
    }

    /// Whether the store is well formed.
    pub fn is_valid(&self) -> (ok: bool)
        ensures
            ok == self.wf(),
    {
        let mut callers: Vec<Vec<u8>> = Vec::new();
        let mut i: usize = 0;
        while i < self.entries.len()
            invariant
                i <= self.entries.len(),
                callers.len() == i,
                forall|k: int| 0 <= k < i ==> callers@[k]@ == self.entries@[k].principal@,
                forall|k: int|
                    0 <= k < i ==> (#[trigger] self.entries@[k]).principal.wf()
                        && self.entries@[k].record.wf(),
            decreases self.entries.len() - i,
        {
            if self.entries[i].principal.bytes.len() > MAX_IDENTITY_BYTES {
                return false;
            }
            if !self.entries[i].record.is_valid() {
                return false;
            }
            callers.push(copy_bytes(&self.entries[i].principal.bytes));
            i += 1;
        }
        assert(byte_views(callers@) =~= user_keys(self.entries@));
        bytes_distinct(&callers)
    }

    /// The position of the history of `caller`, if there is one.
    pub fn find(&self, caller: &Identity) -> (at: Option<usize>)
        requires
            self.wf(),
        ensures
            at is Some == self@.dom().contains(caller@),
            at matches Some(i) ==> i < self.entries@.len() && self.entries@[i as int].principal@
                == caller@ && self@[caller@] == self.entries@[i as int].record@,
    {
        let mut i: usize = 0;
        while i < self.entries.len()
            invariant
                i <= self.entries.len(),
                self.wf(),
                forall|k: int| 0 <= k < i ==> user_keys(self.entries@)[k] != caller@,
            decreases self.entries.len() - i,
        {
            if self.entries[i].principal.same(caller) {
                proof {
                    assert(user_keys(self.entries@)[i as int] == caller@);
                    lemma_assoc_at(user_keys(self.entries@), user_vals(self.entries@), i as int);
                }
                return Some(i);
            }
            i += 1;
        }
        proof {
            lemma_assoc_absent(user_keys(self.entries@), user_vals(self.entries@), caller@);
        }
        None
    }

    /// Stores the history of a caller whom the store does not hold.
    pub fn add(&mut self, principal: Identity, record: UserVoteRecord)
        requires
            old(self).wf(),
            principal.wf(),
            record.wf(),
            !old(self)@.dom().contains(principal@),
        ensures
            final(self).wf(),
            final(self)@ == old(self)@.insert(principal@, record@),
            final(self).entries@.len() == old(self).entries@.len() + 1,
    {
        proof {
            lemma_assoc_push(
                user_keys(self.entries@),
                user_vals(self.entries@),
                principal@,
                record@,
            );
        }
        let ghost key = principal@;
        let ghost val = record@;
        self.entries.push(UserEntry { principal, record });
        assert(user_keys(self.entries@) =~= user_keys(old(self).entries@).push(key));
        assert(user_vals(self.entries@) =~= user_vals(old(self).entries@).push(val));
    }

    /// Replaces the history at position `at` by another history of the same
    /// caller.
    pub fn put(&mut self, at: usize, principal: Identity, record: UserVoteRecord)
        requires
            old(self).wf(),
            principal.wf(),
            record.wf(),
            at < old(self).entries@.len(),
            old(self).entries@[at as int].principal@ == principal@,
        ensures
            final(self).wf(),
            final(self)@ == old(self)@.insert(principal@, record@),
            final(self).entries@.len() == old(self).entries@.len(),
    {
        proof {
            lemma_assoc_update(
                user_keys(self.entries@),
                user_vals(self.entries@),
                at as int,
                record@,
            );
        }
        let ghost val = record@;
        self.entries.set(at, UserEntry { principal, record });
        assert(user_keys(self.entries@) =~= user_keys(old(self).entries@));
        assert(user_vals(self.entries@) =~= user_vals(old(self).entries@).update(at as int, val));
    }
}

} // verus!
