//! Polls: a record per poll, its items in insertion order, and their tallies.

use crate::identity::{Identity, MAX_IDENTITY_BYTES};
use crate::keyed::{lemma_clash, text_views, texts_distinct};
use vstd::prelude::*;

verus! {

/// What an operation of the ledger can refuse with.
#[derive(Debug)]
pub enum VoteError {
    NotFound(&'static str),
    BadRequest(&'static str),
    Other(&'static str),
}

/// One candidate of a poll.
#[derive(Debug)]
pub struct VoteItem {
    pub index: usize,
    pub name: String,
    pub count: u64,
}

/// What a [`VoteItem`] stands for.
pub struct ItemModel {
    pub index: nat,
    pub name: Seq<char>,
    pub count: nat,
}

impl View for VoteItem {
    type V = ItemModel;

    open spec fn view(&self) -> ItemModel {
        ItemModel { index: self.index as nat, name: self.name@, count: self.count as nat }
    }
}

impl Clone for VoteItem {
    fn clone(&self) -> (out: Self)
        ensures
            out@ == self@,
    {
        VoteItem { index: self.index, name: self.name.clone(), count: self.count }
    }
}

/// The models of a sequence of items.
pub open spec fn item_models(items: Seq<VoteItem>) -> Seq<ItemModel> {
    Seq::new(items.len(), |i: int| items[i]@)
}

/// Every item sits at its own index, and no two items share a name.
pub open spec fn items_wf(items: Seq<ItemModel>) -> bool {
    &&& forall|i: int| 0 <= i < items.len() ==> (#[trigger] items[i]).index == i
    &&& forall|i: int, j: int|
        0 <= i < j < items.len() ==> (#[trigger] items[i]).name != (#[trigger] items[j]).name
}

/// Some item carries `name`.
pub open spec fn has_name(items: Seq<ItemModel>, name: Seq<char>) -> bool {
    exists|i: int| 0 <= i < items.len() && (#[trigger] items[i]).name == name
}

/// Some item has been voted for.
pub open spec fn any_votes(items: Seq<ItemModel>) -> bool {
    exists|i: int| 0 <= i < items.len() && (#[trigger] items[i]).count > 0
}

/// The items after `name` was offered: appended with no votes at the next
/// index, unless an item of that name is there already.
pub open spec fn with_item(items: Seq<ItemModel>, name: Seq<char>) -> Seq<ItemModel> {
    if has_name(items, name) {
        items
    } else {
        items.push(ItemModel { index: items.len(), name: name, count: 0 })
    }
}

/// The items after each of `names` was offered, in order.
pub open spec fn with_items(items: Seq<ItemModel>, names: Seq<Seq<char>>) -> Seq<ItemModel>
    decreases names.len(),
{
    if names.len() == 0 {
        items
    } else {
        with_item(with_items(items, names.drop_last()), names.last())
    }
}

/// The names that a list of strings stands for.
pub open spec fn name_models(names: Seq<String>) -> Seq<Seq<char>> {
    names.map_values(|s: String| s@)
}

/// The items after one more vote for the item at `index`.
pub open spec fn with_vote(items: Seq<ItemModel>, index: int) -> Seq<ItemModel>
    recommends
        0 <= index < items.len(),
{
    items.update(index, ItemModel { count: items[index].count + 1, ..items[index] })
}

/// Offering a name keeps the items well formed and adds no vote.
pub proof fn lemma_with_item(items: Seq<ItemModel>, name: Seq<char>)
    requires
        items_wf(items),
    ensures
        items_wf(with_item(items, name)),
        has_name(with_item(items, name), name),
        any_votes(with_item(items, name)) == any_votes(items),
        items.len() <= with_item(items, name).len() <= items.len() + 1,
        forall|i: int| 0 <= i < items.len() ==> with_item(items, name)[i] == items[i],
        forall|i: int|
            items.len() <= i < with_item(items, name).len() ==> (#[trigger] with_item(
                items,
                name,
            )[i]).count == 0,
{
    let out = with_item(items, name);
    if has_name(items, name) {
    } else {
        assert(out[items.len() as int].name == name);
        assert forall|i: int, j: int| 0 <= i < j < out.len() implies (#[trigger] out[i]).name != (
        #[trigger] out[j]).name by {
            if j == items.len() {
                assert(items[i].name != name);
            } else {
                assert(items[i].name != items[j].name);
            }
        }
        if any_votes(out) {
            let i = choose|i: int| 0 <= i < out.len() && (#[trigger] out[i]).count > 0;
            assert(items[i].count > 0);
        }
        if any_votes(items) {
            let i = choose|i: int| 0 <= i < items.len() && (#[trigger] items[i]).count > 0;
            assert(out[i].count > 0);
        }
    }
}

/// Offering names keeps the items well formed, keeps what was there, adds no
/// vote, and leaves every offered name present.
pub proof fn lemma_with_items(items: Seq<ItemModel>, names: Seq<Seq<char>>)
    requires
        items_wf(items),
    ensures
        items_wf(with_items(items, names)),
        any_votes(with_items(items, names)) == any_votes(items),
        items.len() <= with_items(items, names).len(),
        forall|i: int| 0 <= i < items.len() ==> with_items(items, names)[i] == items[i],
        forall|i: int|
            items.len() <= i < with_items(items, names).len() ==> (#[trigger] with_items(
                items,
                names,
            )[i]).count == 0,
        forall|k: int| 0 <= k < names.len() ==> has_name(with_items(items, names), names[k]),
    decreases names.len(),
{
    if names.len() > 0 {
        let before = with_items(items, names.drop_last());
        let after = with_item(before, names.last());
        lemma_with_items(items, names.drop_last());
        lemma_with_item(before, names.last());
        assert forall|k: int| 0 <= k < names.len() implies has_name(after, names[k]) by {
            if k < names.len() - 1 {
                assert(names.drop_last()[k] == names[k]);
                assert(has_name(before, names[k]));
                let i = choose|i: int|
                    0 <= i < before.len() && (#[trigger] before[i]).name == names[k];
                assert(after[i].name == names[k]);
            }
        }
    }
}

/// A poll.
#[derive(Debug)]
pub struct VoteRecord {
    pub created_by: Identity,
    pub created_at: u64,
    pub expired_at: u64,
    pub title: String,
    pub max_selection: u8,
    pub hash: String,
    pub public: bool,
    pub items: Vec<VoteItem>,
}

/// What a [`VoteRecord`] stands for.
pub struct RecordModel {
    pub created_by: Seq<u8>,
    pub created_at: u64,
    pub expired_at: u64,
    pub title: Seq<char>,
    pub max_selection: u8,
    pub hash: Seq<char>,
    pub public: bool,
    pub items: Seq<ItemModel>,
}

impl RecordModel {
    /// The poll no longer takes votes or items at time `now`: the time is
    /// past its deadline.
    pub open spec fn expired(self, now: u64) -> bool {
        now > self.expired_at
    }

    /// The same poll with other items.
    pub open spec fn items_set(self, items: Seq<ItemModel>) -> RecordModel {
        RecordModel { items: items, ..self }
    }

    /// A poll's creator is an identity, and its items are well formed.
    pub open spec fn wf(self) -> bool {
        &&& self.created_by.len() <= crate::identity::MAX_IDENTITY_BYTES
        &&& items_wf(self.items)
    }
}

impl View for VoteRecord {
    type V = RecordModel;

    open spec fn view(&self) -> RecordModel {
        RecordModel {
            created_by: self.created_by@,
            created_at: self.created_at,
            expired_at: self.expired_at,
            title: self.title@,
            max_selection: self.max_selection,
            hash: self.hash@,
            public: self.public,
            items: item_models(self.items@),
        }
    }
}

/// A copy of a vector of items.
pub fn copy_items(src: &Vec<VoteItem>) -> (out: Vec<VoteItem>)
    ensures
        item_models(out@) == item_models(src@),
{
    let mut out: Vec<VoteItem> = Vec::new();
    let mut i: usize = 0;
    while i < src.len()
        invariant
            i <= src.len(),
            out.len() == i,
            forall|k: int| 0 <= k < i ==> out@[k]@ == src@[k]@,
        decreases src.len() - i,
    {
        out.push(src[i].clone());
        i += 1;
    }
    assert(item_models(out@) =~= item_models(src@));
    out
}

impl Clone for VoteRecord {
    fn clone(&self) -> (out: Self)
        ensures
            out@ == self@,
    {
        VoteRecord {
            created_by: self.created_by.clone(),
            created_at: self.created_at,
            expired_at: self.expired_at,
            title: self.title.clone(),
            max_selection: self.max_selection,
            hash: self.hash.clone(),
            public: self.public,
            items: copy_items(&self.items),
        }
    }
}

impl VoteRecord {
    /// The record's model is well formed.
    pub open spec fn wf(&self) -> bool {
        self@.wf()
    }

    /// A poll without items, created at `created_at`.
    pub fn new(
        created_by: Identity,
        title: String,
        hash: String,
        created_at: u64,
        expired_at: u64,
        max_selection: u8,
        public: bool,
    ) -> (out: Self)
        requires
            created_by.wf(),
        ensures
            out.wf(),
            out@ == (RecordModel {
                created_by: created_by@,
                created_at: created_at,
                expired_at: expired_at,
                title: title@,
                max_selection: max_selection,
                hash: hash@,
                public: public,
                items: Seq::<ItemModel>::empty(),
            }),
    {
        let out = VoteRecord {
            created_by,
            created_at,
            expired_at,
            title,
            max_selection,
            hash,
            public,
            items: Vec::new(),
        };
        assert(out@.items =~= Seq::<ItemModel>::empty());
        out
    }

    /// Whether the record is well formed: its creator is an identity, every
    /// item sits at its own index, and no two items share a name.
    pub fn is_valid(&self) -> (ok: bool)
        ensures
            ok == self.wf(),
    {
        if self.created_by.bytes.len() > MAX_IDENTITY_BYTES {
            return false;
        }
        let mut names: Vec<String> = Vec::new();
        let mut i: usize = 0;
        while i < self.items.len()
            invariant
                i <= self.items.len(),
                names.len() == i,
                forall|k: int| 0 <= k < i ==> names@[k]@ == self.items@[k].name@,
                forall|k: int| 0 <= k < i ==> (#[trigger] self@.items[k]).index == k,
            decreases self.items.len() - i,
        {
            if self.items[i].index != i {
                assert(self@.items[i as int].index != i);
                return false;
            }
            names.push(self.items[i].name.clone());
            i += 1;
        }
        let ok = texts_distinct(&names);
        proof {
            let keys = text_views(names@);
            assert forall|k: int| 0 <= k < keys.len() implies keys[k] == self@.items[k].name by {}
            if !ok {
                let at = lemma_clash(keys);
                assert(self@.items[at.0].name == self@.items[at.1].name);
            } else {
                assert forall|a: int, b: int| 0 <= a < b < self@.items.len() implies (
                #[trigger] self@.items[a]).name != (#[trigger] self@.items[b]).name by {
                    assert(keys[a] != keys[b]);
                }
            }
        }
        ok
    }

    /// Whether an item of this name is in the poll (exact match).
    pub fn is_duplicate(&self, name: String) -> (found: bool)
        ensures
            found == has_name(self@.items, name@),
    {
        let mut i: usize = 0;
        while i < self.items.len()
            invariant
                i <= self.items.len(),
                forall|k: int| 0 <= k < i ==> (#[trigger] self@.items[k]).name != name@,
            decreases self.items.len() - i,
        {
            if self.items[i].name == name {
                assert(self@.items[i as int].name == name@);
                return true;
            }
            i += 1;
        }
        false
    }

    /// Appends `name` as a new item without votes, unless the poll has an
    /// item of that name. Items are added only to a poll without votes.
    pub fn add_vote_item(&mut self, name: String)
        requires
            old(self).wf(),
            !any_votes(old(self)@.items),
        ensures
            final(self).wf(),
            final(self)@ == old(self)@.items_set(with_item(old(self)@.items, name@)),
    {
        proof {
            lemma_with_item(self@.items, name@);
        }
        if !self.is_duplicate(name.clone()) {
            let index = self.items.len();
            self.items.push(VoteItem { index, name, count: 0 });
            assert(self@.items =~= with_item(old(self)@.items, name@));
        }
    }

    /// Offers each of `names` in order, as [`VoteRecord::add_vote_item`] does.
    pub fn add_vote_items(&mut self, names: Vec<String>)
        requires
            old(self).wf(),
            !any_votes(old(self)@.items),
        ensures
            final(self).wf(),
            final(self)@ == old(self)@.items_set(with_items(old(self)@.items, name_models(names@))),
    {
        let ghost all = name_models(names@);
        let mut i: usize = 0;
        while i < names.len()
            invariant
                i <= names.len(),
                all == name_models(names@),
                self.wf(),
                !any_votes(self@.items),
                self@ == old(self)@.items_set(with_items(old(self)@.items, all.take(i as int))),
            decreases names.len() - i,
        {
            proof {
                lemma_with_item(self@.items, names@[i as int]@);
                assert(all.take(i + 1).drop_last() == all.take(i as int));
                assert(all.take(i + 1).last() == names@[i as int]@);
            }
            self.add_vote_item(names[i].clone());
            i += 1;
        }
        assert(all.take(names@.len() as int) == all);
    }

    /// Offers `names` to the poll at time `now`. A poll that has votes, or
    /// whose deadline has passed, refuses and stays as it is.
    pub fn offer_items(&mut self, names: Vec<String>, now: u64) -> (out: Result<(), VoteError>)
        requires
            old(self).wf(),
        ensures
            final(self).wf(),
            any_votes(old(self)@.items) ==> final(self)@ == old(self)@ && (out matches Err(
                VoteError::BadRequest(msg),
            ) && msg@ == "Vote record already has votes, not allowed to add more items"@),
            !any_votes(old(self)@.items) && old(self)@.expired(now) ==> final(self)@ == old(self)@
                && (out matches Err(VoteError::BadRequest(msg)) && msg@
                == "Vote record already has expired, not allowed to add more items"@),
            !any_votes(old(self)@.items) && !old(self)@.expired(now) ==> out is Ok && final(self)@
                == old(self)@.items_set(with_items(old(self)@.items, name_models(names@))),
    {
        if self.has_voted() {
            return Err(
                VoteError::BadRequest(
                    "Vote record already has votes, not allowed to add more items",
                ),
            );
        }
        if self.is_expired(now) {
            return Err(
                VoteError::BadRequest(
                    "Vote record already has expired, not allowed to add more items",
                ),
            );
        }
        self.add_vote_items(names);
        Ok(())
    }

    /// Whether any item has been voted for.
    pub fn has_voted(&self) -> (voted: bool)
        ensures
            voted == any_votes(self@.items),
    {
        let mut i: usize = 0;
        while i < self.items.len()
            invariant
                i <= self.items.len(),
                forall|k: int| 0 <= k < i ==> (#[trigger] self@.items[k]).count == 0,
            decreases self.items.len() - i,
        {
            if self.items[i].count > 0 {
                assert(self@.items[i as int].count > 0);
                return true;
            }
            i += 1;
        }
        false
    }

    /// Whether the poll's deadline lies before `now`.
    pub fn is_expired(&self, now: u64) -> (expired: bool)
        ensures
            expired == self@.expired(now),
    {
        now > self.expired_at
    }

    /// Counts one more vote for the item at `index`, or refuses an index
    /// that names no item.
    pub fn cast(&mut self, index: usize) -> (out: Result<(), VoteError>)
        requires
            old(self).wf(),
            index < old(self).items@.len() ==> old(self).items@[index as int].count < u64::MAX,
        ensures
            final(self).wf(),
            index < old(self)@.items.len() ==> out is Ok && final(self)@ == old(self)@.items_set(
                with_vote(old(self)@.items, index as int),
            ),
            index >= old(self)@.items.len() ==> final(self)@ == old(self)@ && (out matches Err(
                VoteError::BadRequest(msg),
            ) && msg@ == "Vote item not found, index out of range"@),
    {
        if index >= self.items.len() {
            return Err(VoteError::BadRequest("Vote item not found, index out of range"));
        }
        let item = VoteItem {
            index: self.items[index].index,
            name: self.items[index].name.clone(),
            count: self.items[index].count + 1,
        };
        self.items.set(index, item);
        assert(self@.items =~= with_vote(old(self)@.items, index as int));
        Ok(())
    }
}

} // verus!
