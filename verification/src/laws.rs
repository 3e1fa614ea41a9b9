//! What holds of the ledger across calls, stated over its model and proved.

use crate::hash::spec_poll_hash;
use crate::identity::MAX_IDENTITY_BYTES;
use crate::ledger::{
    lemma_create_keeps_wf, lemma_vote_keeps_wf, CreateOutcome, LedgerModel, Request,
    VoteOutcome, VOTING_WINDOW,
};
use crate::user::{lemma_with_known, lemma_with_recorded};
use crate::vote::{any_votes, has_name, items_wf, lemma_with_items, with_items};
use vstd::prelude::*;
use vstd::set_lib::lemma_len_subset;

verus! {

/// Creating a poll twice, with no vote in between and before its deadline,
/// works on one poll: the second call succeeds, adds no poll, keeps the
/// poll's creator, title, times and hash, and leaves it with the first
/// list's names offered and then the second's, every name present and none
/// twice. The histories are as the first call left them.
pub proof fn law_creation_is_idempotent(
    m: LedgerModel,
    caller: Seq<u8>,
    title: Seq<char>,
    first: Seq<Seq<char>>,
    second: Seq<Seq<char>>,
    now: u64,
    later: u64,
)
    requires
        m.wf(),
        m.create_outcome(caller, title, now) == CreateOutcome::Created,
        !m.after_create(caller, title, first, now).polls[spec_poll_hash(caller, title)].expired(
            later,
        ),
    ensures
        ({
            let hash = spec_poll_hash(caller, title);
            let start = m.poll_for(caller, title, now);
            let once = m.after_create(caller, title, first, now);
            let twice = once.after_create(caller, title, second, later);
            &&& once.create_outcome(caller, title, later) == CreateOutcome::Created
            &&& once.polls.dom().contains(hash)
            &&& twice.polls.dom() == once.polls.dom()
            &&& twice.users == once.users
            &&& twice.polls[hash] == start.items_set(
                with_items(with_items(start.items, first), second),
            )
            &&& items_wf(twice.polls[hash].items)
            &&& forall|k: int| 0 <= k < first.len() ==> has_name(twice.polls[hash].items, first[k])
            &&& forall|k: int|
                0 <= k < second.len() ==> has_name(twice.polls[hash].items, second[k])
        }),
{
    let hash = spec_poll_hash(caller, title);
    let start = m.poll_for(caller, title, now);
    let once = m.after_create(caller, title, first, now);
    let twice = once.after_create(caller, title, second, later);
    lemma_with_items(start.items, first);
    let merged = with_items(start.items, first);
    lemma_with_items(merged, second);
    lemma_with_known(m.user(caller).owned, hash);
    assert(once.polls.dom().contains(hash));
    assert(twice.polls.dom() =~= once.polls.dom());
    assert(twice.users =~= once.users);
    assert forall|k: int| 0 <= k < first.len() implies has_name(
        twice.polls[hash].items,
        first[k],
    ) by {
        assert(has_name(merged, first[k]));
        let i = choose|i: int| 0 <= i < merged.len() && (#[trigger] merged[i]).name == first[k];
        assert(twice.polls[hash].items[i] == merged[i]);
    }
}

/// A poll with a vote takes no more items: creating it again is refused
/// for its votes, whoever asks and whenever.
pub proof fn law_no_items_after_vote(m: LedgerModel, caller: Seq<u8>, title: Seq<char>, now: u64)
    requires
        m.polls.dom().contains(spec_poll_hash(caller, title)),
        any_votes(m.polls[spec_poll_hash(caller, title)].items),
    ensures
        m.create_outcome(caller, title, now) == CreateOutcome::HasVotes,
{
}

/// An accepted vote closes its poll to new items: from then on creating
/// that poll again is refused for its votes.
pub proof fn law_vote_closes_poll(
    m: LedgerModel,
    voter: Seq<u8>,
    index: usize,
    now: u64,
    caller: Seq<u8>,
    title: Seq<char>,
    later: u64,
)
    requires
        m.wf(),
        m.vote_outcome(voter, spec_poll_hash(caller, title), index, now) == VoteOutcome::Accepted,
    ensures
        m.after_vote(voter, spec_poll_hash(caller, title), index).create_outcome(
            caller,
            title,
            later,
        ) == CreateOutcome::HasVotes,
{
    let hash = spec_poll_hash(caller, title);
    let after = m.after_vote(voter, hash, index).polls[hash];
    assert(after.items[index as int].count > 0);
}

/// The caller has a vote for `index` of the poll `hash` on record.
pub open spec fn has_voted_for(m: LedgerModel, caller: Seq<u8>, hash: Seq<char>, index: usize) -> bool {
    &&& m.polls.dom().contains(hash)
    &&& index < m.polls[hash].items.len()
    &&& m.votes_of(caller, hash).contains(index)
}

/// A vote on record refuses the same vote: the poll has expired or the
/// caller has voted already, and either way nothing changes.
pub proof fn law_recorded_vote_refuses(
    m: LedgerModel,
    caller: Seq<u8>,
    hash: Seq<char>,
    index: usize,
    now: u64,
)
    requires
        has_voted_for(m, caller, hash, index),
    ensures
        m.vote_outcome(caller, hash, index, now) == VoteOutcome::Expired || m.vote_outcome(
            caller,
            hash,
            index,
            now,
        ) == VoteOutcome::AlreadyVoted,
{
}

/// An accepted vote is on record afterwards, so the same vote is refused
/// from then on, and the counts stay as the accepted vote left them.
pub proof fn law_vote_counts_once(
    m: LedgerModel,
    caller: Seq<u8>,
    hash: Seq<char>,
    index: usize,
    now: u64,
    later: u64,
)
    requires
        m.wf(),
        m.vote_outcome(caller, hash, index, now) == VoteOutcome::Accepted,
    ensures
        has_voted_for(m.after_vote(caller, hash, index), caller, hash, index),
        m.after_vote(caller, hash, index).vote_outcome(caller, hash, index, later)
            != VoteOutcome::Accepted,
        m.after_vote(caller, hash, index).polls[hash].items[index as int].count
            == m.polls[hash].items[index as int].count + 1,
{
    lemma_with_recorded(m.user(caller).owned, hash, index);
    lemma_with_recorded(m.user(caller).participated, hash, index);
}

/// A vote on record stays on record through every later accepted vote.
pub proof fn law_record_survives_vote(
    m: LedgerModel,
    caller: Seq<u8>,
    hash: Seq<char>,
    index: usize,
    voter: Seq<u8>,
    poll: Seq<char>,
    choice: usize,
    now: u64,
)
    requires
        m.wf(),
        has_voted_for(m, caller, hash, index),
        m.vote_outcome(voter, poll, choice, now) == VoteOutcome::Accepted,
    ensures
        has_voted_for(m.after_vote(voter, poll, choice), caller, hash, index),
{
    lemma_with_recorded(m.user(voter).owned, poll, choice);
    lemma_with_recorded(m.user(voter).participated, poll, choice);
}

/// A vote on record stays on record through every later creation.
pub proof fn law_record_survives_creation(
    m: LedgerModel,
    caller: Seq<u8>,
    hash: Seq<char>,
    index: usize,
    creator: Seq<u8>,
    title: Seq<char>,
    names: Seq<Seq<char>>,
    now: u64,
)
    requires
        m.wf(),
        has_voted_for(m, caller, hash, index),
        m.create_outcome(creator, title, now) == CreateOutcome::Created,
    ensures
        has_voted_for(m.after_create(creator, title, names, now), caller, hash, index),
{
    let made = spec_poll_hash(creator, title);
    lemma_with_known(m.user(creator).owned, made);
    lemma_with_items(m.poll_for(creator, title, now).items, names);
}

/// A vote on record stays on record whatever requests follow, so the same
/// vote is refused for good: as expired or as cast already, with nothing
/// changed.
pub proof fn law_vote_is_refused_for_good(
    m: LedgerModel,
    caller: Seq<u8>,
    hash: Seq<char>,
    index: usize,
    requests: Seq<Request>,
    now: u64,
)
    requires
        m.wf(),
        has_voted_for(m, caller, hash, index),
        forall|k: int| 0 <= k < requests.len() ==> (#[trigger] requests[k]).from_identity(),
    ensures
        m.after_all(requests).wf(),
        has_voted_for(m.after_all(requests), caller, hash, index),
        m.after_all(requests).vote_outcome(caller, hash, index, now) == VoteOutcome::Expired
            || m.after_all(requests).vote_outcome(caller, hash, index, now)
            == VoteOutcome::AlreadyVoted,
        m.after_all(requests).after(
            (Request::Vote { caller: caller, hash: hash, index: index, now: now }),
        ) == m.after_all(requests),
    decreases requests.len(),
{
    if requests.len() > 0 {
        let earlier = requests.drop_last();
        assert forall|k: int| 0 <= k < earlier.len() implies (#[trigger] earlier[k]).from_identity() by {
            assert(earlier[k] == requests[k]);
        }
        law_vote_is_refused_for_good(m, caller, hash, index, earlier, now);
        let before = m.after_all(earlier);
        assert(requests.last().from_identity());
        match requests.last() {
            Request::Create { caller: creator, title, names, now: then } => {
                if before.create_outcome(creator, title, then) == CreateOutcome::Created {
                    lemma_create_keeps_wf(before, creator, title, names, then);
                    law_record_survives_creation(
                        before,
                        caller,
                        hash,
                        index,
                        creator,
                        title,
                        names,
                        then,
                    );
                }
            },
            Request::Vote { caller: voter, hash: poll, index: choice, now: then } => {
                if before.vote_outcome(voter, poll, choice, then) == VoteOutcome::Accepted {
                    lemma_vote_keeps_wf(before, voter, poll, choice, then);
                    law_record_survives_vote(
                        before,
                        caller,
                        hash,
                        index,
                        voter,
                        poll,
                        choice,
                        then,
                    );
                }
            },
        }
    }
}

/// From the empty ledger on, whatever requests are served, the ledger meets
/// its invariant: every item's count is the number of callers who have a
/// vote for it on record.
pub proof fn law_tallies_hold_after_requests(requests: Seq<Request>, hash: Seq<char>, index: usize)
    requires
        forall|k: int| 0 <= k < requests.len() ==> (#[trigger] requests[k]).from_identity(),
    ensures
        LedgerModel::empty().after_all(requests).wf(),
        ({
            let m = LedgerModel::empty().after_all(requests);
            m.polls.dom().contains(hash) && index < m.polls[hash].items.len()
                ==> m.polls[hash].items[index as int].count == m.voters(hash, index).len()
        }),
    decreases requests.len(),
{
    let empty = LedgerModel::empty();
    if requests.len() == 0 {
        assert forall|h: Seq<char>, i: usize| #[trigger] empty.tally(h, i) == 0 by {
            assert(empty.voters(h, i) =~= Set::<Seq<u8>>::empty());
        }
    } else {
        let earlier = requests.drop_last();
        assert forall|k: int| 0 <= k < earlier.len() implies (#[trigger] earlier[k]).from_identity() by {
            assert(earlier[k] == requests[k]);
        }
        law_tallies_hold_after_requests(earlier, hash, index);
        let before = empty.after_all(earlier);
        assert(requests.last().from_identity());
        match requests.last() {
            Request::Create { caller, title, names, now } => {
                if before.create_outcome(caller, title, now) == CreateOutcome::Created {
                    lemma_create_keeps_wf(before, caller, title, names, now);
                }
            },
            Request::Vote { caller, hash: poll, index: choice, now } => {
                if before.vote_outcome(caller, poll, choice, now) == VoteOutcome::Accepted {
                    lemma_vote_keeps_wf(before, caller, poll, choice, now);
                }
            },
        }
    }
    let m = empty.after_all(requests);
    if m.polls.dom().contains(hash) && index < m.polls[hash].items.len() {
        assert(m.polls[hash].items[index as int].count == m.tally(hash, index));
    }
}

/// In a ledger that meets its invariant an item's count is the number of
/// callers who have a vote for it on record, and never exceeds the number of
/// callers. The empty ledger meets the invariant, and every creation and
/// every accepted vote keeps it.
pub proof fn law_tally_counts_voters(m: LedgerModel, hash: Seq<char>, index: usize)
    requires
        m.wf(),
        m.polls.dom().contains(hash),
        index < m.polls[hash].items.len(),
    ensures
        m.voters(hash, index).finite(),
        m.polls[hash].items[index as int].count == m.voters(hash, index).len(),
        m.polls[hash].items[index as int].count <= m.users.dom().len(),
        forall|caller: Seq<u8>|
            m.voters(hash, index).contains(caller) <==> m.users.dom().contains(caller)
                && has_voted_for(m, caller, hash, index),
{
    assert(m.polls[hash].items[index as int].count == m.tally(hash, index));
    lemma_len_subset(m.voters(hash, index), m.users.dom());
}

/// The invariant holds from the empty ledger on, through every creation
/// and every accepted vote.
pub proof fn law_invariant_is_kept(
    m: LedgerModel,
    caller: Seq<u8>,
    title: Seq<char>,
    names: Seq<Seq<char>>,
    hash: Seq<char>,
    index: usize,
    now: u64,
)
    requires
        m.wf(),
        caller.len() <= MAX_IDENTITY_BYTES,
    ensures
        LedgerModel::empty().wf(),
        m.create_outcome(caller, title, now) == CreateOutcome::Created ==> m.after_create(
            caller,
            title,
            names,
            now,
        ).wf(),
        m.vote_outcome(caller, hash, index, now) == VoteOutcome::Accepted ==> m.after_vote(
            caller,
            hash,
            index,
        ).wf(),
{
    let empty = LedgerModel::empty();
    assert forall|h: Seq<char>, i: usize| #[trigger] empty.tally(h, i) == 0 by {
        assert(empty.voters(h, i) =~= Set::<Seq<u8>>::empty());
    }
    if m.create_outcome(caller, title, now) == CreateOutcome::Created {
        lemma_create_keeps_wf(m, caller, title, names, now);
    }
    if m.vote_outcome(caller, hash, index, now) == VoteOutcome::Accepted {
        lemma_vote_keeps_wf(m, caller, hash, index, now);
    }
}

/// A new poll is open for one voting window: created at `now`, it is
/// expired at exactly the times that are more than one window after `now`.
pub proof fn law_window_after_creation(
    m: LedgerModel,
    caller: Seq<u8>,
    title: Seq<char>,
    now: u64,
    later: u64,
)
    requires
        !m.polls.dom().contains(spec_poll_hash(caller, title)),
    ensures
        m.poll_for(caller, title, now).created_at == now,
        m.poll_for(caller, title, now).expired(later) <==> later > now + VOTING_WINDOW,
        m.create_outcome(caller, title, now) == CreateOutcome::Created,
{
    assert(!any_votes(m.poll_for(caller, title, now).items));
}

/// A poll refuses votes as expired exactly when the time is past its
/// deadline: up to and at the deadline it does not, from the next second on
/// it does.
pub proof fn law_expiry_boundary(
    m: LedgerModel,
    caller: Seq<u8>,
    hash: Seq<char>,
    index: usize,
    now: u64,
)
    requires
        m.polls.dom().contains(hash),
    ensures
        m.vote_outcome(caller, hash, index, now) == VoteOutcome::Expired <==> now
            > m.polls[hash].expired_at,
{
}

} // verus!
