//! The ledger: the poll store and the history store, changed together.
//!
//! Every operation is stated over [`LedgerModel`], two finite maps. The
//! model's invariant ties the stores to each other: a recorded vote names an
//! item that exists, and an item's count is the number of callers who have
//! that item's index recorded for the poll.

use crate::hash::{poll_hash, spec_poll_hash};
use crate::identity::{Identity, MAX_IDENTITY_BYTES};
use crate::keyed::{lemma_assoc_at, lemma_assoc_dom};
use crate::order::{lemma_less_total, lemma_less_transitive, text_before, text_less};
use crate::store::{record_keys, record_vals, user_keys, user_vals, UserVoteStore, VoteStore};
use crate::user::{lemma_with_known, lemma_with_recorded, recorded, UserModel, UserVoteRecord};
use crate::vote::{
    any_votes, lemma_with_items, name_models, with_items, with_vote, ItemModel, RecordModel,
    VoteError, VoteRecord,
};
use vstd::prelude::*;
use vstd::set_lib::lemma_len_subset;

verus! {

/// How long a poll takes votes after its creation: seven days, in seconds.
pub const VOTING_WINDOW: u64 = 604800;

/// The deadline of a poll created at `now`: one voting window later, or the
/// largest time there is where that lies beyond it. Either way the poll is
/// expired at exactly the times that are more than one window after `now`.
pub open spec fn deadline(now: u64) -> u64 {
    if now > u64::MAX - VOTING_WINDOW {
        u64::MAX
    } else {
        (now + VOTING_WINDOW) as u64
    }
}

/// The deadline of a poll created at `now`.
pub fn voting_deadline(now: u64) -> (at: u64)
    ensures
        at == deadline(now),
{
    if now > u64::MAX - VOTING_WINDOW {
        u64::MAX
    } else {
        now + VOTING_WINDOW
    }
}

/// The number of selections a new poll declares per voter.
pub const DEFAULT_MAX_SELECTION: u8 = 1;

/// What a [`Ledger`] stands for: polls by hash, histories by caller.
pub struct LedgerModel {
    pub polls: Map<Seq<char>, RecordModel>,
    pub users: Map<Seq<u8>, UserModel>,
}

/// How a request to create a poll ends.
pub enum CreateOutcome {
    /// The poll exists and has votes: it takes no more items.
    HasVotes,
    /// The poll exists and its deadline has passed.
    Expired,
    /// The poll is created, or found, and the items are offered to it.
    Created,
}

/// How a request to vote ends.
pub enum VoteOutcome {
    /// No poll has this hash.
    NotFound,
    /// The poll's deadline has passed.
    Expired,
    /// The poll has no item at this index.
    OutOfRange,
    /// The caller has voted for this item before.
    AlreadyVoted,
    /// The vote is recorded and counted.
    Accepted,
}

/// A request that can change the ledger.
pub enum Request {
    /// `caller` asks for the poll under `title`, with `names` as items.
    Create { caller: Seq<u8>, title: Seq<char>, names: Seq<Seq<char>>, now: u64 },
    /// `caller` votes for the item at `index` of the poll `hash`.
    Vote { caller: Seq<u8>, hash: Seq<char>, index: usize, now: u64 },
}

impl Request {
    /// The request comes from an identity.
    pub open spec fn from_identity(self) -> bool {
        match self {
            Request::Create { caller, .. } => caller.len() <= MAX_IDENTITY_BYTES,
            Request::Vote { caller, .. } => caller.len() <= MAX_IDENTITY_BYTES,
        }
    }
}

impl LedgerModel {
    /// The ledger after a request: changed as the request asks where it is
    /// granted, and as it was where it is refused.
    pub open spec fn after(self, request: Request) -> LedgerModel {
        match request {
            Request::Create { caller, title, names, now } => {
                if self.create_outcome(caller, title, now) == CreateOutcome::Created {
                    self.after_create(caller, title, names, now)
                } else {
                    self
                }
            },
            Request::Vote { caller, hash, index, now } => {
                if self.vote_outcome(caller, hash, index, now) == VoteOutcome::Accepted {
                    self.after_vote(caller, hash, index)
                } else {
                    self
                }
            },
        }
    }

    /// The ledger after a sequence of requests, served in order.
    pub open spec fn after_all(self, requests: Seq<Request>) -> LedgerModel
        decreases requests.len(),
    {
        if requests.len() == 0 {
            self
        } else {
            self.after_all(requests.drop_last()).after(requests.last())
        }
    }

    /// The ledger without polls and callers.
    pub open spec fn empty() -> LedgerModel {
        LedgerModel { polls: Map::empty(), users: Map::empty() }
    }

    /// The history of `caller`: empty for a caller the ledger has not seen.
    pub open spec fn user(self, caller: Seq<u8>) -> UserModel {
        if self.users.dom().contains(caller) {
            self.users[caller]
        } else {
            UserModel::empty()
        }
    }

    /// The indices that `caller` has voted for in the poll `hash`: kept among
    /// the owned polls for its creator, among the others for everyone else.
    pub open spec fn votes_of(self, caller: Seq<u8>, hash: Seq<char>) -> Seq<usize> {
        if caller == self.polls[hash].created_by {
            recorded(self.user(caller).owned, hash)
        } else {
            recorded(self.user(caller).participated, hash)
        }
    }

    /// The callers who have voted for `index` in the poll `hash`.
    pub open spec fn voters(self, hash: Seq<char>, index: usize) -> Set<Seq<u8>> {
        Set::new(
            |caller: Seq<u8>|
                self.users.dom().contains(caller) && self.votes_of(caller, hash).contains(index),
        )
    }

    /// The number of callers who have voted for `index` in the poll `hash`.
    pub open spec fn tally(self, hash: Seq<char>, index: usize) -> nat {
        self.voters(hash, index).len()
    }

    /// `caller` has `index` recorded for `hash`, in either role.
    pub open spec fn has_recorded(self, caller: Seq<u8>, hash: Seq<char>, index: usize) -> bool {
        recorded(self.user(caller).owned, hash).contains(index) || recorded(
            self.user(caller).participated,
            hash,
        ).contains(index)
    }

    /// Every poll is well formed and stored under its own hash.
    pub open spec fn polls_ok(self) -> bool {
        forall|hash: Seq<char>| #[trigger]
            self.polls.dom().contains(hash) ==> {
                &&& self.polls[hash].wf()
                &&& self.polls[hash].hash == hash
            }
    }

    /// The callers are finitely many identities.
    pub open spec fn users_ok(self) -> bool {
        &&& self.users.dom().finite()
        &&& forall|caller: Seq<u8>| #[trigger]
            self.users.dom().contains(caller) ==> caller.len() <= MAX_IDENTITY_BYTES
    }

    /// Every recorded vote names an item of a poll that exists.
    pub open spec fn votes_in_range(self) -> bool {
        forall|caller: Seq<u8>, hash: Seq<char>, index: usize| #[trigger]
            self.has_recorded(caller, hash, index) ==> self.polls.dom().contains(hash) && index
                < self.polls[hash].items.len()
    }

    /// Every item's count is the number of callers who voted for it.
    pub open spec fn tallies_ok(self) -> bool {
        forall|hash: Seq<char>, index: usize|
            self.polls.dom().contains(hash) && index < self.polls[hash].items.len()
                ==> self.polls[hash].items[index as int].count == #[trigger] self.tally(
                hash,
                index,
            )
    }

    /// The ledger's invariant.
    pub open spec fn wf(self) -> bool {
        &&& self.polls_ok()
        &&& self.users_ok()
        &&& self.votes_in_range()
        &&& self.tallies_ok()
    }

    /// The poll that a creation by `caller` under `title` at `now` works on:
    /// the one stored under the derived hash, or a new one without items
    /// that closes at the deadline for `now`.
    pub open spec fn poll_for(self, caller: Seq<u8>, title: Seq<char>, now: u64) -> RecordModel {
        let hash = spec_poll_hash(caller, title);
        if self.polls.dom().contains(hash) {
            self.polls[hash]
        } else {
            RecordModel {
                created_by: caller,
                created_at: now,
                expired_at: deadline(now),
                title: title,
                max_selection: DEFAULT_MAX_SELECTION,
                hash: hash,
                public: true,
                items: Seq::empty(),
            }
        }
    }

    /// How creating a poll ends.
    pub open spec fn create_outcome(self, caller: Seq<u8>, title: Seq<char>, now: u64)
        -> CreateOutcome {
        let poll = self.poll_for(caller, title, now);
        if any_votes(poll.items) {
            CreateOutcome::HasVotes
        } else if poll.expired(now) {
            CreateOutcome::Expired
        } else {
            CreateOutcome::Created
        }
    }

    /// The ledger after a creation that was not refused: the poll holds the
    /// offered names, and the caller knows it as an owned poll.
    pub open spec fn after_create(
        self,
        caller: Seq<u8>,
        title: Seq<char>,
        names: Seq<Seq<char>>,
        now: u64,
    ) -> LedgerModel {
        let hash = spec_poll_hash(caller, title);
        let poll = self.poll_for(caller, title, now);
        LedgerModel {
            polls: self.polls.insert(hash, poll.items_set(with_items(poll.items, names))),
            users: self.users.insert(caller, self.user(caller).created(hash)),
        }
    }

    /// How a vote ends.
    pub open spec fn vote_outcome(self, caller: Seq<u8>, hash: Seq<char>, index: usize, now: u64)
        -> VoteOutcome {
        if !self.polls.dom().contains(hash) {
            VoteOutcome::NotFound
        } else if self.polls[hash].expired(now) {
            VoteOutcome::Expired
        } else if index >= self.polls[hash].items.len() {
            VoteOutcome::OutOfRange
        } else if self.votes_of(caller, hash).contains(index) {
            VoteOutcome::AlreadyVoted
        } else {
            VoteOutcome::Accepted
        }
    }

    /// The ledger after an accepted vote: the index is recorded for the
    /// caller in their role, and the item counts one more.
    pub open spec fn after_vote(self, caller: Seq<u8>, hash: Seq<char>, index: usize)
        -> LedgerModel {
        let poll = self.polls[hash];
        let history = if caller == poll.created_by {
            self.user(caller).owner_voted(hash, index)
        } else {
            self.user(caller).participant_voted(hash, index)
        };
        LedgerModel {
            polls: self.polls.insert(hash, poll.items_set(with_vote(poll.items, index as int))),
            users: self.users.insert(caller, history),
        }
    }
}

/// A creation that is not refused keeps the invariant.
pub proof fn lemma_create_keeps_wf(
    m: LedgerModel,
    caller: Seq<u8>,
    title: Seq<char>,
    names: Seq<Seq<char>>,
    now: u64,
)
    requires
        m.wf(),
        caller.len() <= MAX_IDENTITY_BYTES,
        m.create_outcome(caller, title, now) == CreateOutcome::Created,
    ensures
        m.after_create(caller, title, names, now).wf(),
{
    let n = m.after_create(caller, title, names, now);
    let h = spec_poll_hash(caller, title);
    let before = m.poll_for(caller, title, now);
    lemma_with_items(before.items, names);
    lemma_with_known(m.user(caller).owned, h);
    assert(n.user(caller) == m.user(caller).created(h));
    assert forall|u: Seq<u8>, h2: Seq<char>| #[trigger]
        recorded(n.user(u).owned, h2) == recorded(m.user(u).owned, h2) && recorded(
            n.user(u).participated,
            h2,
        ) == recorded(m.user(u).participated, h2) by {
        if u != caller {
            assert(n.user(u) == m.user(u));
        }
    }
    assert forall|u: Seq<u8>, h2: Seq<char>, x: usize| #[trigger]
        n.has_recorded(u, h2, x) == m.has_recorded(u, h2, x) by {
        assert(recorded(n.user(u).owned, h2) == recorded(m.user(u).owned, h2));
    }
    assert(n.polls_ok()) by {
        assert forall|h2: Seq<char>| #[trigger] n.polls.dom().contains(h2) implies {
            &&& n.polls[h2].wf()
            &&& n.polls[h2].hash == h2
        } by {
            if h2 != h {
                assert(m.polls.dom().contains(h2));
            } else if m.polls.dom().contains(h) {
            }
        }
    }
    assert(n.users_ok());
    assert(n.votes_in_range()) by {
        assert forall|u: Seq<u8>, h2: Seq<char>, x: usize| #[trigger]
            n.has_recorded(u, h2, x) implies n.polls.dom().contains(h2) && x
            < n.polls[h2].items.len() by {
            assert(m.has_recorded(u, h2, x));
        }
    }
    assert(n.tallies_ok()) by {
        assert forall|h2: Seq<char>, i: usize|
            n.polls.dom().contains(h2) && i < n.polls[h2].items.len() implies n.polls[h2].items[i as int].count
            == #[trigger] n.tally(h2, i) by {
            if m.polls.dom().contains(h2) && i < m.polls[h2].items.len() {
                assert(n.polls[h2].created_by == m.polls[h2].created_by);
                assert forall|u: Seq<u8>|
                    n.voters(h2, i).contains(u) == m.voters(h2, i).contains(u) by {
                    assert(recorded(n.user(u).owned, h2) == recorded(m.user(u).owned, h2));
                }
                assert(n.voters(h2, i) =~= m.voters(h2, i));
                assert(m.polls[h2].items[i as int].count == m.tally(h2, i));
            } else {
                assert(h2 == h);
                assert forall|u: Seq<u8>| !n.voters(h2, i).contains(u) by {
                    if n.voters(h2, i).contains(u) {
                        assert(n.has_recorded(u, h2, i));
                        assert(m.has_recorded(u, h2, i));
                    }
                }
                assert(n.voters(h2, i) =~= Set::<Seq<u8>>::empty());
            }
        }
    }
}

/// An accepted vote finds room in the tally: after it there are at least as
/// many callers as the item has votes.
pub proof fn lemma_vote_room(m: LedgerModel, caller: Seq<u8>, hash: Seq<char>, index: usize, now: u64)
    requires
        m.wf(),
        m.vote_outcome(caller, hash, index, now) == VoteOutcome::Accepted,
    ensures
        m.polls[hash].items[index as int].count + 1 <= m.users.dom().insert(caller).len(),
{
    let voters = m.voters(hash, index);
    assert(m.polls[hash].items[index as int].count == m.tally(hash, index));
    assert(voters.insert(caller).subset_of(m.users.dom().insert(caller)));
    lemma_len_subset(voters.insert(caller), m.users.dom().insert(caller));
    lemma_len_subset(voters, m.users.dom());
    assert(!voters.contains(caller));
}

/// An accepted vote keeps the invariant.
pub proof fn lemma_vote_keeps_wf(
    m: LedgerModel,
    caller: Seq<u8>,
    hash: Seq<char>,
    index: usize,
    now: u64,
)
    requires
        m.wf(),
        caller.len() <= MAX_IDENTITY_BYTES,
        m.vote_outcome(caller, hash, index, now) == VoteOutcome::Accepted,
    ensures
        m.after_vote(caller, hash, index).wf(),
{
    let n = m.after_vote(caller, hash, index);
    let poll = m.polls[hash];
    let owner = caller == poll.created_by;
    lemma_with_recorded(m.user(caller).owned, hash, index);
    lemma_with_recorded(m.user(caller).participated, hash, index);
    assert(m.polls.dom().contains(hash));
    assert(n.polls[hash].created_by == poll.created_by);
    assert(n.user(caller) == if owner {
        m.user(caller).owner_voted(hash, index)
    } else {
        m.user(caller).participant_voted(hash, index)
    });
    assert forall|u: Seq<u8>, h2: Seq<char>, x: usize|
        n.users.dom().contains(u) implies #[trigger] n.votes_of(u, h2).contains(x) == (m.votes_of(
            u,
            h2,
        ).contains(x) || (u == caller && h2 == hash && x == index)) by {
        assert(n.polls[h2].created_by == m.polls[h2].created_by);
        if u != caller {
            assert(n.user(u) == m.user(u));
        }
    }
    assert forall|u: Seq<u8>, h2: Seq<char>, x: usize| #[trigger]
        n.has_recorded(u, h2, x) implies m.has_recorded(u, h2, x) || (h2 == hash && x
        == index) by {
        if u != caller {
            assert(n.user(u) == m.user(u));
        }
    }
    assert(n.polls_ok()) by {
        assert forall|h2: Seq<char>| #[trigger] n.polls.dom().contains(h2) implies {
            &&& n.polls[h2].wf()
            &&& n.polls[h2].hash == h2
        } by {
            assert(m.polls.dom().contains(h2));
        }
    }
    assert(n.users_ok());
    assert(n.votes_in_range());
    assert(n.tallies_ok()) by {
        assert forall|h2: Seq<char>, i: usize|
            n.polls.dom().contains(h2) && i < n.polls[h2].items.len() implies n.polls[h2].items[i as int].count
            == #[trigger] n.tally(h2, i) by {
            assert(m.polls.dom().contains(h2));
            assert(m.polls[h2].items[i as int].count == m.tally(h2, i));
            if h2 == hash && i == index {
                assert forall|u: Seq<u8>|
                    n.voters(h2, i).contains(u) == m.voters(h2, i).insert(caller).contains(
                        u,
                    ) by {
                    if n.users.dom().contains(u) {
                        assert(n.votes_of(u, h2).contains(i) == (m.votes_of(u, h2).contains(i)
                            || u == caller));
                    }
                }
                assert(n.voters(h2, i) =~= m.voters(h2, i).insert(caller));
                lemma_len_subset(m.voters(h2, i), m.users.dom());
                assert(!m.voters(h2, i).contains(caller));
            } else {
                assert forall|u: Seq<u8>|
                    n.voters(h2, i).contains(u) == m.voters(h2, i).contains(u) by {
                    if n.users.dom().contains(u) {
                        assert(n.votes_of(u, h2).contains(i) == m.votes_of(u, h2).contains(i));
                    }
                }
                assert(n.voters(h2, i) =~= m.voters(h2, i));
            }
        }
    }
}

/// The reply is a refusal of a bad request with this text.
pub open spec fn is_bad_request<T>(out: Result<T, VoteError>, text: Seq<char>) -> bool {
    out matches Err(VoteError::BadRequest(msg)) && msg@ == text
}

/// The reply says, with this text, that something was not found.
pub open spec fn is_not_found<T>(out: Result<T, VoteError>, text: Seq<char>) -> bool {
    out matches Err(VoteError::NotFound(msg)) && msg@ == text
}

/// Every listed poll is a poll of the ledger, as the ledger holds it.
pub open spec fn listed_from(m: LedgerModel, listed: Seq<VoteRecord>) -> bool {
    forall|j: int|
        0 <= j < listed.len() ==> m.polls.dom().contains((#[trigger] listed[j])@.hash)
            && m.polls[listed[j]@.hash] == listed[j]@
}

/// The polls are listed by hash, each before all that sort after it.
pub open spec fn sorted_by_hash(listed: Seq<VoteRecord>) -> bool {
    forall|a: int, b: int|
        0 <= a < b < listed.len() ==> text_less(
            (#[trigger] listed[a]).hash@,
            (#[trigger] listed[b]).hash@,
        )
}

/// The poll store and the history store of one voting service.
#[derive(Debug)]
pub struct Ledger {
    pub votes: VoteStore,
    pub users: UserVoteStore,
}

impl View for Ledger {
    type V = LedgerModel;

    open spec fn view(&self) -> LedgerModel {
        LedgerModel { polls: self.votes@, users: self.users@ }
    }
}

impl Ledger {
    /// Both stores are well formed, and together they meet the invariant.
    pub open spec fn wf(&self) -> bool {
        &&& self.votes.wf()
        &&& self.users.wf()
        &&& self@.wf()
    }

    /// The hashes of the polls, in the order of their creation.
    pub open spec fn order(&self) -> Seq<Seq<char>> {
        record_keys(self.votes.records@)
    }

    /// A ledger without polls and callers.
    pub fn new() -> (out: Self)
        ensures
            out.wf(),
            out@ == LedgerModel::empty(),
            out.order() == Seq::<Seq<char>>::empty(),
    {
        let out = Ledger { votes: VoteStore::new(), users: UserVoteStore::new() };
        assert(out.order() =~= Seq::<Seq<char>>::empty());
        proof {
            assert forall|hash: Seq<char>, index: usize| #[trigger]
                out@.tally(hash, index) == 0 by {
                assert(out@.voters(hash, index) =~= Set::<Seq<u8>>::empty());
            }
        }
        out
    }

    /// The poll stored under `hash`.
    pub fn get_vote(&self, hash: String) -> (out: Result<VoteRecord, VoteError>)
        requires
            self.wf(),
        ensures
            self@.polls.dom().contains(hash@) ==> out is Ok && out.unwrap()@ == self@.polls[hash@],
            !self@.polls.dom().contains(hash@) ==> is_not_found(out, "Vote record not found"@),
    {
        match self.votes.find(&hash) {
            Some(at) => Ok(self.votes.records[at].clone()),
            None => Err(VoteError::NotFound("Vote record not found")),
        }
    }

    /// The voting history of `caller`.
    pub fn get_my_vote(&self, caller: &Identity) -> (out: Result<UserVoteRecord, VoteError>)
        requires
            self.wf(),
        ensures
            self@.users.dom().contains(caller@) ==> out is Ok && out.unwrap()@
                == self@.users[caller@] && out.unwrap().wf(),
            !self@.users.dom().contains(caller@) ==> is_not_found(out, "No vote record found"@),
    {
        match self.users.find(caller) {
            Some(at) => Ok(self.users.entries[at].record.clone()),
            None => Err(VoteError::NotFound("No vote record found")),
        }
    }

    /// All polls, sorted by hash, whatever their visibility; refused where
    /// the ledger holds none.
    pub fn get_public_vote(&self) -> (out: Result<Vec<VoteRecord>, VoteError>)
        requires
            self.wf(),
        ensures
            self.order().len() == 0 ==> is_not_found(out, "No vote record found"@),
            self.order().len() > 0 ==> out is Ok && out.unwrap()@.len() == self.order().len()
                && listed_from(self@, out.unwrap()@) && sorted_by_hash(out.unwrap()@),
    {
        if self.votes.records.len() == 0 {
            return Err(VoteError::NotFound("No vote record found"));
        }
        let ghost keys = record_keys(self.votes.records@);
        let ghost vals = record_vals(self.votes.records@);
        let ghost mut source: Seq<int> = Seq::empty();
        let mut listed: Vec<VoteRecord> = Vec::new();
        let mut i: usize = 0;
        while i < self.votes.records.len()
            invariant
                i <= self.votes.records.len(),
                self.votes.wf(),
                listed.len() == i,
                source.len() == i,
                forall|j: int|
                    0 <= j < i ==> 0 <= #[trigger] source[j] < i && listed@[j]@
                        == self.votes.records@[source[j]]@,
                sorted_by_hash(listed@),
            decreases self.votes.records.len() - i,
        {
            let record = &self.votes.records[i];
            let mut at: usize = 0;
            while at < listed.len() && text_before(&listed[at].hash, &record.hash)
                invariant
                    at <= listed.len(),
                    forall|j: int|
                        0 <= j < at ==> text_less((#[trigger] listed@[j]).hash@, record.hash@),
                decreases listed.len() - at,
            {
                at += 1;
            }
            let ghost before = listed@;
            proof {
                if at < before.len() {
                    let next = before[at as int].hash@;
                    assert(next == record_keys(self.votes.records@)[source[at as int]]);
                    assert(record.hash@ == record_keys(self.votes.records@)[i as int]);
                    lemma_less_total(next, record.hash@, 0);
                    assert forall|j: int| at <= j < before.len() implies text_less(
                        record.hash@,
                        (#[trigger] before[j]).hash@,
                    ) by {
                        if j > at {
                            lemma_less_transitive(record.hash@, next, before[j].hash@, 0);
                        }
                    }
                }
                source = source.insert(at as int, i as int);
            }
            listed.insert(at, record.clone());
            proof {
                assert forall|a: int, b: int| 0 <= a < b < listed@.len() implies text_less(
                    (#[trigger] listed@[a]).hash@,
                    (#[trigger] listed@[b]).hash@,
                ) by {
                    if b < at {
                        assert(listed@[a] == before[a] && listed@[b] == before[b]);
                    } else if b == at {
                        assert(listed@[a] == before[a]);
                    } else if a < at {
                        assert(listed@[a] == before[a] && listed@[b] == before[b - 1]);
                    } else if a == at {
                        assert(listed@[b] == before[b - 1]);
                    } else {
                        assert(listed@[a] == before[a - 1] && listed@[b] == before[b - 1]);
                    }
                }
            }
            i += 1;
        }
        proof {
            assert forall|j: int| 0 <= j < listed@.len() implies self@.polls.dom().contains(
                (#[trigger] listed@[j])@.hash,
            ) && self@.polls[listed@[j]@.hash] == listed@[j]@ by {
                lemma_assoc_at(keys, vals, source[j]);
            }
        }
        Ok(listed)
    }

    /// Creates the poll of `caller` under `title`, or finds it, and offers
    /// `names` to it as items. A poll that has votes or has expired refuses,
    /// and nothing changes. Otherwise the names that the poll does not hold
    /// are appended in order, the caller's history knows the poll as owned,
    /// and the poll is returned as it then stands.
    pub fn create_vote(&mut self, caller: &Identity, title: String, names: Vec<String>, now: u64)
        -> (out: Result<VoteRecord, VoteError>)
        requires
            old(self).wf(),
            caller.wf(),
        ensures
            final(self).wf(),
            final(self)@ == old(self)@.after(
                (Request::Create {
                    caller: caller@,
                    title: title@,
                    names: name_models(names@),
                    now: now,
                }),
            ),
            final(self).order() == if old(self)@.create_outcome(caller@, title@, now)
                == CreateOutcome::Created && !old(self)@.polls.dom().contains(
                spec_poll_hash(caller@, title@),
            ) {
                old(self).order().push(spec_poll_hash(caller@, title@))
            } else {
                old(self).order()
            },
            match old(self)@.create_outcome(caller@, title@, now) {
                CreateOutcome::HasVotes => final(self)@ == old(self)@ && is_bad_request(
                    out,
                    "Vote record already has votes, not allowed to add more items"@,
                ),
                CreateOutcome::Expired => final(self)@ == old(self)@ && is_bad_request(
                    out,
                    "Vote record already has expired, not allowed to add more items"@,
                ),
                CreateOutcome::Created => final(self)@ == old(self)@.after_create(
                    caller@,
                    title@,
                    name_models(names@),
                    now,
                ) && out is Ok && out.unwrap()@ == final(self)@.polls[spec_poll_hash(
                    caller@,
                    title@,
                )],
            },
    {
        let ghost m = self@;
        let hash = poll_hash(caller, &title);
        let found = self.votes.find(&hash);
        let mut record = match found {
            Some(at) => self.votes.records[at].clone(),
            None => VoteRecord::new(
                caller.clone(),
                title,
                hash.clone(),
                now,
                voting_deadline(now),
                DEFAULT_MAX_SELECTION,
                true,
            ),
        };
        match record.offer_items(names, now) {
            Ok(()) => {},
            Err(refusal) => {
                return Err(refusal);
            },
        }
        let reply = record.clone();
        match found {
            Some(at) => {
                self.votes.put(at, record);
                assert(self.order() =~= old(self).order());
            },
            None => {
                self.votes.add(record);
                assert(self.order() =~= old(self).order().push(hash@));
            },
        }
        match self.users.find(caller) {
            Some(at) => {
                let mut history = self.users.entries[at].record.clone();
                history.add_created_vote(hash);
                self.users.put(at, caller.clone(), history);
            },
            None => {
                let mut history = UserVoteRecord::new();
                history.add_created_vote(hash);
                self.users.add(caller.clone(), history);
            },
        }
        proof {
            let n = m.after_create(caller@, title@, name_models(names@), now);
            assert(self@.polls =~= n.polls);
            assert(self@.users =~= n.users);
            lemma_create_keeps_wf(m, caller@, title@, name_models(names@), now);
        }
        Ok(reply)
    }

    /// Casts the vote of `caller` for the item at `index` of the poll
    /// `hash`. Refused, with nothing changed, where the poll is unknown, has
    /// expired, has no such item, or has this caller's vote for the item
    /// already. Otherwise the index enters the caller's history first, among
    /// the owned polls for the poll's creator and among the others for
    /// everyone else; then the item counts one more, and the poll is
    /// returned as it then stands.
    pub fn vote(&mut self, caller: &Identity, hash: String, index: usize, now: u64) -> (out: Result<
        VoteRecord,
        VoteError,
    >)
        requires
            old(self).wf(),
            caller.wf(),
        ensures
            final(self).wf(),
            final(self)@ == old(self)@.after(
                (Request::Vote { caller: caller@, hash: hash@, index: index, now: now }),
            ),
            final(self).order() == old(self).order(),
            match old(self)@.vote_outcome(caller@, hash@, index, now) {
                VoteOutcome::NotFound => final(self)@ == old(self)@ && is_not_found(
                    out,
                    "Failed to vote, vote record not found"@,
                ),
                VoteOutcome::Expired => final(self)@ == old(self)@ && is_bad_request(
                    out,
                    "Vote has already expired, not allowed to vote anymore"@,
                ),
                VoteOutcome::OutOfRange => final(self)@ == old(self)@ && is_bad_request(
                    out,
                    "Vote item not found, index out of range"@,
                ),
                VoteOutcome::AlreadyVoted => final(self)@ == old(self)@ && is_bad_request(
                    out,
                    "You already voted for this vote"@,
                ),
                VoteOutcome::Accepted => final(self)@ == old(self)@.after_vote(
                    caller@,
                    hash@,
                    index,
                ) && out is Ok && out.unwrap()@ == final(self)@.polls[hash@],
            },
    {
        let ghost m = self@;
        let at = match self.votes.find(&hash) {
            Some(at) => at,
            None => {
                return Err(VoteError::NotFound("Failed to vote, vote record not found"));
            },
        };
        if self.votes.records[at].is_expired(now) {
            return Err(
                VoteError::BadRequest("Vote has already expired, not allowed to vote anymore"),
            );
        }
        if index >= self.votes.records[at].items.len() {
            return Err(VoteError::BadRequest("Vote item not found, index out of range"));
        }
        let is_owner = self.votes.records[at].created_by.same(caller);
        match self.users.find(caller) {
            Some(seat) => {
                let mut history = self.users.entries[seat].record.clone();
                let fresh = if is_owner {
                    history.add_created_vote_index(hash.clone(), index)
                } else {
                    history.add_participated_vote(hash.clone(), index)
                };
                if !fresh {
                    return Err(VoteError::BadRequest("You already voted for this vote"));
                }
                self.users.put(seat, caller.clone(), history);
            },
            None => {
                let mut history = UserVoteRecord::new();
                if is_owner {
                    history.add_created_vote_index(hash.clone(), index);
                } else {
                    history.add_participated_vote(hash.clone(), index);
                }
                self.users.add(caller.clone(), history);
            },
        }
        proof {
            lemma_vote_room(m, caller@, hash@, index, now);
            lemma_assoc_dom(user_keys(self.users.entries@), user_vals(self.users.entries@));
            assert(self.users@.dom() =~= m.users.dom().insert(caller@));
        }
        let seats: usize = self.users.entries.len();
        let mut record = self.votes.records[at].clone();
        proof {
            assert(record@ == m.polls[hash@]);
            assert(record@.items[index as int].count == record.items@[index as int].count as nat);
            assert(self.users@.dom().len() <= self.users.entries@.len());
            assert(m.polls[hash@].items[index as int].count + 1 <= seats);
        }
        let _ = record.cast(index);
        let reply = record.clone();
        self.votes.put(at, record);
        proof {
            assert(self.order() =~= old(self).order());
            let n = m.after_vote(caller@, hash@, index);
            assert(self@.polls =~= n.polls);
            assert(self@.users =~= n.users);
            lemma_vote_keeps_wf(m, caller@, hash@, index, now);
        }
        Ok(reply)
    }
}

} // verus!
