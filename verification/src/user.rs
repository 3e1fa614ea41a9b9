//! The voting history of one caller: the polls they created and the polls
//! they took part in, each with the indices they have voted for.

use crate::keyed::{
    assoc, distinct, lemma_assoc_absent, lemma_assoc_at, lemma_assoc_push, lemma_assoc_update,
    text_views, texts_distinct,
};
use vstd::prelude::*;

verus! {

/// A poll's hash with the indices voted for, if any vote was recorded.
#[derive(Debug)]
pub struct VoteHistory {
    pub hash: String,
    pub indices: Option<Vec<usize>>,
}

/// Histories by poll hash.
pub type HistoryModel = Map<Seq<char>, Option<Seq<usize>>>;

/// What an optional list of indices stands for.
pub open spec fn indices_model(indices: Option<Vec<usize>>) -> Option<Seq<usize>> {
    match indices {
        Some(list) => Some(list@),
        None => None,
    }
}

/// The hashes of the entries, in order.
pub open spec fn history_keys(entries: Seq<VoteHistory>) -> Seq<Seq<char>> {
    Seq::new(entries.len(), |i: int| entries[i].hash@)
}

/// The recorded indices of the entries, in order.
pub open spec fn history_vals(entries: Seq<VoteHistory>) -> Seq<Option<Seq<usize>>> {
    Seq::new(entries.len(), |i: int| indices_model(entries[i].indices))
}

/// The entries read as a map from hash to recorded indices.
pub open spec fn history_map(entries: Seq<VoteHistory>) -> HistoryModel {
    assoc(history_keys(entries), history_vals(entries))
}

/// The indices recorded under `hash`: none where the poll is unknown or has
/// no list yet.
pub open spec fn recorded(history: HistoryModel, hash: Seq<char>) -> Seq<usize> {
    if history.dom().contains(hash) && history[hash] is Some {
        history[hash].unwrap()
    } else {
        Seq::empty()
    }
}

/// The history after `index` was recorded under `hash`.
pub open spec fn with_recorded(history: HistoryModel, hash: Seq<char>, index: usize) -> HistoryModel {
    history.insert(hash, Some(recorded(history, hash).push(index)))
}

/// The history after `hash` was marked as known: an unknown poll enters
/// without a list, a known one keeps what it has.
pub open spec fn with_known(history: HistoryModel, hash: Seq<char>) -> HistoryModel {
    if history.dom().contains(hash) {
        history
    } else {
        history.insert(hash, None)
    }
}

/// Recording an index adds it under its poll and changes nothing else.
pub proof fn lemma_with_recorded(history: HistoryModel, hash: Seq<char>, index: usize)
    ensures
        forall|other: Seq<char>, x: usize| #[trigger]
            recorded(with_recorded(history, hash, index), other).contains(x) == (recorded(
                history,
                other,
            ).contains(x) || (other == hash && x == index)),
{
    assert forall|other: Seq<char>, x: usize| #[trigger]
        recorded(with_recorded(history, hash, index), other).contains(x) == (recorded(
            history,
            other,
        ).contains(x) || (other == hash && x == index)) by {
        if other == hash {
            vstd::seq_lib::lemma_seq_contains_after_push(recorded(history, hash), index, x);
        }
    }
}

/// Marking a poll as known records no index.
pub proof fn lemma_with_known(history: HistoryModel, hash: Seq<char>)
    ensures
        forall|other: Seq<char>| #[trigger]
            recorded(with_known(history, hash), other) == recorded(history, other),
{
}

/// What a [`UserVoteRecord`] stands for.
pub struct UserModel {
    pub owned: HistoryModel,
    pub participated: HistoryModel,
}

impl UserModel {
    /// The history of a caller who has done nothing yet.
    pub open spec fn empty() -> UserModel {
        UserModel { owned: Map::empty(), participated: Map::empty() }
    }

    /// The history after the caller created the poll `hash`.
    pub open spec fn created(self, hash: Seq<char>) -> UserModel {
        UserModel { owned: with_known(self.owned, hash), ..self }
    }

    /// The history after the caller, as owner, voted for `index` of `hash`.
    pub open spec fn owner_voted(self, hash: Seq<char>, index: usize) -> UserModel {
        UserModel { owned: with_recorded(self.owned, hash, index), ..self }
    }

    /// The history after the caller, as participant, voted for `index` of
    /// `hash`.
    pub open spec fn participant_voted(self, hash: Seq<char>, index: usize) -> UserModel {
        UserModel { participated: with_recorded(self.participated, hash, index), ..self }
    }
}

/// One caller's voting history.
#[derive(Debug)]
pub struct UserVoteRecord {
    pub owned: Vec<VoteHistory>,
    pub participated: Vec<VoteHistory>,
}

impl View for UserVoteRecord {
    type V = UserModel;

    open spec fn view(&self) -> UserModel {
        UserModel {
            owned: history_map(self.owned@),
            participated: history_map(self.participated@),
        }
    }
}

/// Whether `list` holds `index`.
pub fn holds_index(list: &Vec<usize>, index: usize) -> (found: bool)
    ensures
        found == list@.contains(index),
{
    let mut i: usize = 0;
    while i < list.len()
        invariant
            i <= list.len(),
            forall|k: int| 0 <= k < i ==> list@[k] != index,
        decreases list.len() - i,
    {
        if list[i] == index {
            return true;
        }
        i += 1;
    }
    false
}

/// A copy of a list of indices.
pub fn copy_indices(src: &Vec<usize>) -> (out: Vec<usize>)
    ensures
        out@ == src@,
{
    let mut out: Vec<usize> = Vec::new();
    let mut i: usize = 0;
    while i < src.len()
        invariant
            i <= src.len(),
            out.len() == i,
            forall|k: int| 0 <= k < i ==> out@[k] == src@[k],
        decreases src.len() - i,
    {
        out.push(src[i]);
        i += 1;
    }
    assert(out@ =~= src@);
    out
}

/// A copy of a list of histories.
pub fn copy_history(src: &Vec<VoteHistory>) -> (out: Vec<VoteHistory>)
    ensures
        history_keys(out@) == history_keys(src@),
        history_vals(out@) == history_vals(src@),
{
    let mut out: Vec<VoteHistory> = Vec::new();
    let mut i: usize = 0;
    while i < src.len()
        invariant
            i <= src.len(),
            out.len() == i,
            forall|k: int|
                0 <= k < i ==> out@[k].hash@ == src@[k].hash@ && indices_model(out@[k].indices)
                    == indices_model(src@[k].indices),
        decreases src.len() - i,
    {
        let indices = match &src[i].indices {
            Some(list) => Some(copy_indices(list)),
            None => None,
        };
        out.push(VoteHistory { hash: src[i].hash.clone(), indices });
        i += 1;
    }
    assert(history_keys(out@) =~= history_keys(src@));
    assert(history_vals(out@) =~= history_vals(src@));
    out
}

/// Whether no poll occurs twice in the list.
pub fn hashes_distinct(entries: &Vec<VoteHistory>) -> (ok: bool)
    ensures
        ok == distinct(history_keys(entries@)),
{
    let mut hashes: Vec<String> = Vec::new();
    let mut i: usize = 0;
    while i < entries.len()
        invariant
            i <= entries.len(),
            hashes.len() == i,
            forall|k: int| 0 <= k < i ==> hashes@[k]@ == entries@[k].hash@,
        decreases entries.len() - i,
    {
        hashes.push(entries[i].hash.clone());
        i += 1;
    }
    assert(text_views(hashes@) =~= history_keys(entries@));
    texts_distinct(&hashes)
}

/// The position of the entry for `hash`, if there is one.
pub fn find_history(entries: &Vec<VoteHistory>, hash: &String) -> (at: Option<usize>)
    requires
        distinct(history_keys(entries@)),
    ensures
        at is Some == history_map(entries@).dom().contains(hash@),
        at matches Some(i) ==> i < entries@.len() && entries@[i as int].hash@ == hash@
            && history_map(entries@)[hash@] == indices_model(entries@[i as int].indices),
{
    let mut i: usize = 0;
    while i < entries.len()
        invariant
            i <= entries.len(),
            distinct(history_keys(entries@)),
            forall|k: int| 0 <= k < i ==> history_keys(entries@)[k] != hash@,
        decreases entries.len() - i,
    {
        if entries[i].hash == *hash {
            proof {
                assert(history_keys(entries@)[i as int] == hash@);
                lemma_assoc_at(history_keys(entries@), history_vals(entries@), i as int);
            }
            return Some(i);
        }
        i += 1;
    }
    proof {
        lemma_assoc_absent(history_keys(entries@), history_vals(entries@), hash@);
    }
    None
}

/// Appends an entry for a poll that the list does not know.
fn push_history(entries: &mut Vec<VoteHistory>, hash: String, indices: Option<Vec<usize>>)
    requires
        distinct(history_keys(old(entries)@)),
        !history_map(old(entries)@).dom().contains(hash@),
    ensures
        distinct(history_keys(final(entries)@)),
        history_map(final(entries)@) == history_map(old(entries)@).insert(
            hash@,
            indices_model(indices),
        ),
        final(entries)@ == old(entries)@.push(VoteHistory { hash: hash, indices: indices }),
{
    proof {
        lemma_assoc_push(
            history_keys(entries@),
            history_vals(entries@),
            hash@,
            indices_model(indices),
        );
    }
    entries.push(VoteHistory { hash, indices });
    assert(history_keys(entries@) =~= history_keys(old(entries)@).push(hash@));
    assert(history_vals(entries@) =~= history_vals(old(entries)@).push(indices_model(indices)));
}

/// Records `index` under the entry at `at`, unless it is recorded there
/// already; says whether it was recorded now.
fn record_at(entries: &mut Vec<VoteHistory>, at: usize, hash: String, index: usize) -> (fresh:
    bool)
    requires
        distinct(history_keys(old(entries)@)),
        at < old(entries)@.len(),
        old(entries)@[at as int].hash@ == hash@,
    ensures
        distinct(history_keys(final(entries)@)),
        fresh == !recorded(history_map(old(entries)@), hash@).contains(index),
        fresh ==> history_map(final(entries)@) == with_recorded(
            history_map(old(entries)@),
            hash@,
            index,
        ),
        !fresh ==> final(entries)@ == old(entries)@,
{
    proof {
        assert(history_keys(entries@)[at as int] == hash@);
        lemma_assoc_at(history_keys(entries@), history_vals(entries@), at as int);
    }
    let mut list = match &entries[at].indices {
        Some(known) => copy_indices(known),
        None => Vec::new(),
    };
    assert(list@ =~= recorded(history_map(entries@), hash@));
    if holds_index(&list, index) {
        return false;
    }
    list.push(index);
    proof {
        lemma_assoc_update(
            history_keys(entries@),
            history_vals(entries@),
            at as int,
            Some(list@),
        );
    }
    entries.set(at, VoteHistory { hash, indices: Some(list) });
    assert(history_keys(entries@) =~= history_keys(old(entries)@));
    assert(history_vals(entries@) =~= history_vals(old(entries)@).update(at as int, Some(list@)));
    true
}

/// Records `index` under `hash`, with a new entry where the list knows no
/// such poll, unless it is recorded there already; says whether it was
/// recorded now.
fn record_vote(entries: &mut Vec<VoteHistory>, hash: String, index: usize) -> (fresh: bool)
    requires
        distinct(history_keys(old(entries)@)),
    ensures
        distinct(history_keys(final(entries)@)),
        fresh == !recorded(history_map(old(entries)@), hash@).contains(index),
        fresh ==> history_map(final(entries)@) == with_recorded(
            history_map(old(entries)@),
            hash@,
            index,
        ),
        !fresh ==> final(entries)@ == old(entries)@,
{
    match find_history(entries, &hash) {
        Some(at) => record_at(entries, at, hash, index),
        None => {
            let mut list: Vec<usize> = Vec::new();
            list.push(index);
            assert(list@ =~= Seq::<usize>::empty().push(index));
            push_history(entries, hash, Some(list));
            true
        },
    }
}

impl Clone for UserVoteRecord {
    fn clone(&self) -> (out: Self)
        ensures
            out@ == self@,
            self.wf() ==> out.wf(),
    {
        UserVoteRecord {
            owned: copy_history(&self.owned),
            participated: copy_history(&self.participated),
        }
    }
}

impl UserVoteRecord {
    /// No poll occurs twice in either list.
    pub open spec fn wf(&self) -> bool {
        &&& distinct(history_keys(self.owned@))
        &&& distinct(history_keys(self.participated@))
    }

    /// Whether the record is well formed.
    pub fn is_valid(&self) -> (ok: bool)
        ensures
            ok == self.wf(),
    {
        hashes_distinct(&self.owned) && hashes_distinct(&self.participated)
    }

    /// The history of a caller who has done nothing yet.
    pub fn new() -> (out: Self)
        ensures
            out.wf(),
            out@ == UserModel::empty(),
    {
        let out = UserVoteRecord { owned: Vec::new(), participated: Vec::new() };
        assert(out@.owned =~= Map::empty());
        assert(out@.participated =~= Map::empty());
        out
    }

    /// Marks the poll `hash` as created by this caller. A poll that is marked
    /// already keeps the indices recorded for it.
    pub fn add_created_vote(&mut self, hash: String)
        requires
            old(self).wf(),
        ensures
            final(self).wf(),
            final(self)@ == old(self)@.created(hash@),
    {
        if find_history(&self.owned, &hash).is_none() {
            push_history(&mut self.owned, hash, None);
        }
    }

    /// Records that this caller, the poll's creator, voted for `index`: the
    /// index joins what is recorded for the poll among the owned polls, where
    /// a poll that is unknown or has no list yet counts as having none
    /// recorded. Returns false, and changes nothing, where `index` is
    /// recorded already.
    pub fn add_created_vote_index(&mut self, hash: String, index: usize) -> (fresh: bool)
        requires
            old(self).wf(),
        ensures
            final(self).wf(),
            fresh == !recorded(old(self)@.owned, hash@).contains(index),
            fresh ==> final(self)@ == old(self)@.owner_voted(hash@, index),
            !fresh ==> final(self)@ == old(self)@,
    {
        record_vote(&mut self.owned, hash, index)
    }

    /// Records that this caller, a participant, voted for `index`: the index
    /// joins what is recorded for the poll among the polls taken part in,
    /// where a poll that is unknown or has no list yet counts as having none
    /// recorded. Returns false, and changes nothing, where `index` is
    /// recorded already.
    pub fn add_participated_vote(&mut self, hash: String, index: usize) -> (fresh: bool)
        requires
            old(self).wf(),
        ensures
            final(self).wf(),
            fresh == !recorded(old(self)@.participated, hash@).contains(index),
            fresh ==> final(self)@ == old(self)@.participant_voted(hash@, index),
            !fresh ==> final(self)@ == old(self)@,
    {
        record_vote(&mut self.participated, hash, index)
    }
}

} // verus!
