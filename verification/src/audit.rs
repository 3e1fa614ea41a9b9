//! Checking stores against the ledger's invariant, and rebuilding a ledger
//! from stores that were kept elsewhere.

use crate::keyed::{distinct, lemma_assoc_at, lemma_assoc_dom, lemma_assoc_where};
use crate::ledger::{Ledger, LedgerModel};
use crate::store::{record_keys, record_vals, user_keys, user_vals, UserVoteStore, VoteStore};
use crate::user::{
    find_history, history_keys, history_map, history_vals, holds_index, recorded, HistoryModel,
    VoteHistory,
};
use vstd::prelude::*;

verus! {

/// The callers among the first `upto` keys who have voted for `index` in the
/// poll `hash`.
pub open spec fn voters_among(
    m: LedgerModel,
    keys: Seq<Seq<u8>>,
    upto: int,
    hash: Seq<char>,
    index: usize,
) -> Set<Seq<u8>> {
    Set::new(
        |caller: Seq<u8>|
            exists|k: int|
                0 <= k < upto && #[trigger] keys[k] == caller && m.votes_of(caller, hash).contains(
                    index,
                ),
    )
}

/// Every index that the history records names an item of a poll that exists.
pub open spec fn history_in_range(m: LedgerModel, history: HistoryModel) -> bool {
    forall|hash: Seq<char>, x: usize| #[trigger]
        recorded(history, hash).contains(x) ==> m.polls.dom().contains(hash) && x
            < m.polls[hash].items.len()
}

/// The entry at position `k` records the index `x`.
pub open spec fn entry_holds(list: Seq<VoteHistory>, k: int, x: usize) -> bool {
    list[k].indices matches Some(held) && held@.contains(x)
}

/// Whether every index in the list is below `limit`.
pub fn all_below(list: &Vec<usize>, limit: usize) -> (ok: bool)
    ensures
        ok == forall|k: int| 0 <= k < list@.len() ==> list@[k] < limit,
{
    let mut i: usize = 0;
    while i < list.len()
        invariant
            i <= list.len(),
            forall|k: int| 0 <= k < i ==> list@[k] < limit,
        decreases list.len() - i,
    {
        if list[i] >= limit {
            return false;
        }
        i += 1;
    }
    true
}

impl Ledger {
    /// Whether the caller at `seat` has voted for `index` in the poll at
    /// position `poll`.
    fn seat_voted(&self, seat: usize, poll: usize, index: usize) -> (voted: bool)
        requires
            self.votes.wf(),
            self.users.wf(),
            seat < self.users.entries@.len(),
            poll < self.votes.records@.len(),
        ensures
            voted == self@.votes_of(
                self.users.entries@[seat as int].principal@,
                self.votes.records@[poll as int].hash@,
            ).contains(index),
    {
        let entry = &self.users.entries[seat];
        let record = &self.votes.records[poll];
        proof {
            assert(user_keys(self.users.entries@)[seat as int] == entry.principal@);
            assert(record_keys(self.votes.records@)[poll as int] == record.hash@);
            lemma_assoc_at(
                user_keys(self.users.entries@),
                user_vals(self.users.entries@),
                seat as int,
            );
            lemma_assoc_at(
                record_keys(self.votes.records@),
                record_vals(self.votes.records@),
                poll as int,
            );
        }
        let list = if entry.principal.same(&record.created_by) {
            &entry.record.owned
        } else {
            &entry.record.participated
        };
        match find_history(list, &record.hash) {
            Some(at) => match &list[at].indices {
                Some(held) => holds_index(held, index),
                None => false,
            },
            None => false,
        }
    }

    /// The number of callers who have voted for `index` in the poll at
    /// position `poll`.
    pub fn count_voters(&self, poll: usize, index: usize) -> (counted: usize)
        requires
            self.votes.wf(),
            self.users.wf(),
            poll < self.votes.records@.len(),
        ensures
            counted == self@.tally(self.votes.records@[poll as int].hash@, index),
    {
        let ghost keys = user_keys(self.users.entries@);
        let ghost hash = self.votes.records@[poll as int].hash@;
        let mut counted: usize = 0;
        let mut seat: usize = 0;
        proof {
            assert(voters_among(self@, keys, 0, hash, index) =~= Set::<Seq<u8>>::empty());
        }
        while seat < self.users.entries.len()
            invariant
                seat <= self.users.entries.len(),
                counted <= seat,
                self.votes.wf(),
                self.users.wf(),
                poll < self.votes.records@.len(),
                keys == user_keys(self.users.entries@),
                hash == self.votes.records@[poll as int].hash@,
                voters_among(self@, keys, seat as int, hash, index).finite(),
                counted == voters_among(self@, keys, seat as int, hash, index).len(),
            decreases self.users.entries.len() - seat,
        {
            let voted = self.seat_voted(seat, poll, index);
            proof {
                let before = voters_among(self@, keys, seat as int, hash, index);
                let after = voters_among(self@, keys, seat + 1, hash, index);
                let caller = keys[seat as int];
                assert(!before.contains(caller));
                if voted {
                    assert(after =~= before.insert(caller));
                } else {
                    assert(after =~= before);
                }
            }
            if voted {
                counted += 1;
            }
            seat += 1;
        }
        proof {
            assert(voters_among(self@, keys, keys.len() as int, hash, index) =~= self@.voters(
                hash,
                index,
            ));
        }
        counted
    }

    /// Whether every index that the list records names an item of a poll
    /// that exists.
    fn history_ok(&self, list: &Vec<VoteHistory>) -> (ok: bool)
        requires
            self.votes.wf(),
            distinct(history_keys(list@)),
        ensures
            ok == history_in_range(self@, history_map(list@)),
    {
        let ghost keys = history_keys(list@);
        let ghost vals = history_vals(list@);
        let mut e: usize = 0;
        while e < list.len()
            invariant
                e <= list.len(),
                self.votes.wf(),
                distinct(history_keys(list@)),
                keys == history_keys(list@),
                vals == history_vals(list@),
                forall|k: int, x: usize|
                    0 <= k < e && #[trigger] entry_holds(list@, k, x) ==> self@.polls.dom().contains(
                        list@[k].hash@,
                    ) && x < self@.polls[list@[k].hash@].items.len(),
            decreases list.len() - e,
        {
            match &list[e].indices {
                Some(held) => {
                    let limit = match self.votes.find(&list[e].hash) {
                        Some(at) => self.votes.records[at].items.len(),
                        None => 0,
                    };
                    if !all_below(held, limit) {
                        proof {
                            let k = choose|k: int| 0 <= k < held@.len() && !(held@[k] < limit);
                            let x = held@[k];
                            assert(held@.contains(x));
                            assert(keys[e as int] == list@[e as int].hash@);
                            lemma_assoc_at(keys, vals, e as int);
                            assert(recorded(history_map(list@), list@[e as int].hash@).contains(x));
                        }
                        return false;
                    }
                },
                None => {},
            }
            e += 1;
        }
        proof {
            assert forall|hash: Seq<char>, x: usize| #[trigger]
                recorded(history_map(list@), hash).contains(x) implies self@.polls.dom().contains(
                hash,
            ) && x < self@.polls[hash].items.len() by {
                let k = lemma_assoc_where(keys, vals, hash);
                assert(entry_holds(list@, k, x));
            }
        }
        true
    }

    /// Whether every recorded vote names an item of a poll that exists.
    fn histories_ok(&self) -> (ok: bool)
        requires
            self.votes.wf(),
            self.users.wf(),
        ensures
            ok == self@.votes_in_range(),
    {
        let ghost keys = user_keys(self.users.entries@);
        let ghost vals = user_vals(self.users.entries@);
        let mut seat: usize = 0;
        while seat < self.users.entries.len()
            invariant
                seat <= self.users.entries.len(),
                self.votes.wf(),
                self.users.wf(),
                keys == user_keys(self.users.entries@),
                vals == user_vals(self.users.entries@),
                forall|k: int|
                    0 <= k < seat ==> history_in_range(
                        self@,
                        (#[trigger] vals[k]).owned,
                    ) && history_in_range(self@, vals[k].participated),
            decreases self.users.entries.len() - seat,
        {
            let entry = &self.users.entries[seat];
            let fine = self.history_ok(&entry.record.owned) && self.history_ok(
                &entry.record.participated,
            );
            if !fine {
                proof {
                    lemma_assoc_at(keys, vals, seat as int);
                    let caller = keys[seat as int];
                    assert(self@.user(caller) == vals[seat as int]);
                    if !history_in_range(self@, vals[seat as int].owned) {
                        let (hash, x) = choose|hash: Seq<char>, x: usize| #[trigger]
                            recorded(vals[seat as int].owned, hash).contains(x) && !(
                            self@.polls.dom().contains(hash) && x < self@.polls[hash].items.len());
                        assert(self@.has_recorded(caller, hash, x));
                    } else {
                        let (hash, x) = choose|hash: Seq<char>, x: usize| #[trigger]
                            recorded(vals[seat as int].participated, hash).contains(x) && !(
                            self@.polls.dom().contains(hash) && x < self@.polls[hash].items.len());
                        assert(self@.has_recorded(caller, hash, x));
                    }
                }
                return false;
            }
            seat += 1;
        }
        proof {
            assert forall|caller: Seq<u8>, hash: Seq<char>, x: usize| #[trigger]
                self@.has_recorded(caller, hash, x) implies self@.polls.dom().contains(hash) && x
                < self@.polls[hash].items.len() by {
                if self@.users.dom().contains(caller) {
                    let k = lemma_assoc_where(keys, vals, caller);
                    assert(history_in_range(self@, vals[k].owned));
                    assert(history_in_range(self@, vals[k].participated));
                }
            }
        }
        true
    }

    /// Whether every item's count is the number of callers who voted for it.
    fn tallies_ok(&self) -> (ok: bool)
        requires
            self.votes.wf(),
            self.users.wf(),
        ensures
            ok == self@.tallies_ok(),
    {
        let ghost keys = record_keys(self.votes.records@);
        let ghost vals = record_vals(self.votes.records@);
        let mut p: usize = 0;
        while p < self.votes.records.len()
            invariant
                p <= self.votes.records.len(),
                self.votes.wf(),
                self.users.wf(),
                keys == record_keys(self.votes.records@),
                vals == record_vals(self.votes.records@),
                forall|k: int, i: usize|
                    0 <= k < p && i < vals[k].items.len() ==> vals[k].items[i as int].count
                        == #[trigger] self@.tally(keys[k], i),
            decreases self.votes.records.len() - p,
        {
            let record = &self.votes.records[p];
            let mut i: usize = 0;
            while i < record.items.len()
                invariant
                    i <= record.items.len(),
                    p < self.votes.records.len(),
                    record == &self.votes.records@[p as int],
                    self.votes.wf(),
                    self.users.wf(),
                    keys == record_keys(self.votes.records@),
                    vals == record_vals(self.votes.records@),
                    forall|j: usize|
                        j < i ==> vals[p as int].items[j as int].count == #[trigger] self@.tally(
                            keys[p as int],
                            j,
                        ),
                decreases record.items.len() - i,
            {
                let counted = self.count_voters(p, i);
                if counted as u64 != record.items[i].count {
                    proof {
                        lemma_assoc_at(keys, vals, p as int);
                        assert(self@.polls[keys[p as int]].items[i as int].count != self@.tally(
                            keys[p as int],
                            i,
                        ));
                    }
                    return false;
                }
                i += 1;
            }
            p += 1;
        }
        proof {
            assert forall|hash: Seq<char>, i: usize|
                self@.polls.dom().contains(hash) && i
                    < self@.polls[hash].items.len() implies self@.polls[hash].items[i as int].count
                == #[trigger] self@.tally(hash, i) by {
                let k = lemma_assoc_where(keys, vals, hash);
                assert(vals[k].items[i as int].count == self@.tally(keys[k], i));
            }
        }
        true
    }

    /// Whether the ledger is well formed: both stores are, every recorded
    /// vote names an item, and every count is the number of its voters.
    pub fn is_valid(&self) -> (ok: bool)
        ensures
            ok == self.wf(),
    {
        if !self.votes.is_valid() || !self.users.is_valid() {
            return false;
        }
        proof {
            let keys = user_keys(self.users.entries@);
            let vals = user_vals(self.users.entries@);
            lemma_assoc_dom(keys, vals);
            assert forall|caller: Seq<u8>| #[trigger]
                self@.users.dom().contains(caller) implies caller.len()
                <= crate::identity::MAX_IDENTITY_BYTES by {
                let k = lemma_assoc_where(keys, vals, caller);
                assert(self.users.entries@[k].principal.wf());
            }
            assert(self@.users_ok());
            let hashes = record_keys(self.votes.records@);
            let polls = record_vals(self.votes.records@);
            assert forall|hash: Seq<char>| #[trigger]
                self@.polls.dom().contains(hash) implies self@.polls[hash].wf()
                && self@.polls[hash].hash == hash by {
                let k = lemma_assoc_where(hashes, polls, hash);
                assert(self.votes.records@[k].wf());
            }
            assert(self@.polls_ok());
        }
        self.histories_ok() && self.tallies_ok()
    }

    /// A copy of both stores, to be kept elsewhere: as a ledger the copy is
    /// well formed where this one is, stands for the same polls and
    /// histories, and lists the polls in the same order.
    pub fn snapshot(&self) -> (out: (VoteStore, UserVoteStore))
        ensures
            (Ledger { votes: out.0, users: out.1 })@ == self@,
            (Ledger { votes: out.0, users: out.1 }).order() == self.order(),
            self.wf() ==> (Ledger { votes: out.0, users: out.1 }).wf(),
    {
        (self.votes.clone(), self.users.clone())
    }

    /// The ledger that holds the given stores, where they are well formed
    /// as a ledger; the empty ledger otherwise.
    pub fn restore(votes: VoteStore, users: UserVoteStore) -> (out: Ledger)
        ensures
            out.wf(),
            (Ledger { votes: votes, users: users }).wf() ==> out == (Ledger {
                votes: votes,
                users: users,
            }),
            !(Ledger { votes: votes, users: users }).wf() ==> out@ == LedgerModel::empty(),
    {
        let kept = Ledger { votes, users };
        if kept.is_valid() {
            kept
        } else {
            Ledger::new()
        }
    }
}

} // verus!
