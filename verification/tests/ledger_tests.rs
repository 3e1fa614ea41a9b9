use dvote_backend::identity::Identity;
use dvote_backend::ledger::{Ledger, VOTING_WINDOW};
use dvote_backend::user::UserVoteRecord;
use dvote_backend::vote::{VoteError, VoteRecord};

fn id(bytes: &[u8]) -> Identity {
    Identity::new(bytes.to_vec()).unwrap()
}

fn names(list: &[&str]) -> Vec<String> {
    list.iter().map(|s| s.to_string()).collect()
}

fn counts(record: &VoteRecord) -> Vec<u64> {
    record.items.iter().map(|item| item.count).collect()
}

fn item_names(record: &VoteRecord) -> Vec<String> {
    record.items.iter().map(|item| item.name.clone()).collect()
}

fn indices_under(list: &[dvote_backend::user::VoteHistory], hash: &str) -> Option<Option<Vec<usize>>> {
    list.iter().find(|entry| entry.hash == hash).map(|entry| entry.indices.clone())
}

fn owned(history: &UserVoteRecord, hash: &str) -> Option<Option<Vec<usize>>> {
    indices_under(&history.owned, hash)
}

fn participated(history: &UserVoteRecord, hash: &str) -> Option<Option<Vec<usize>>> {
    indices_under(&history.participated, hash)
}

#[test]
fn lunch_poll_scenario() {
    let alice = id(&[1, 2, 3]);
    let bob = id(&[9, 9]);
    let mut ledger = Ledger::new();

    let poll = ledger
        .create_vote(&alice, "Lunch".to_string(), names(&["Pizza", "Sushi"]), 1_000)
        .unwrap();
    let hash = poll.hash.clone();
    assert_eq!(poll.items.len(), 2);
    assert_eq!(poll.items[0].index, 0);
    assert_eq!(poll.items[0].name, "Pizza");
    assert_eq!(poll.items[0].count, 0);
    assert_eq!(poll.items[1].index, 1);
    assert_eq!(poll.items[1].name, "Sushi");
    assert_eq!(poll.items[1].count, 0);

    let after_bob = ledger.vote(&bob, hash.clone(), 1, 1_001).unwrap();
    assert_eq!(counts(&after_bob), vec![0, 1]);

    let again = ledger.vote(&bob, hash.clone(), 1, 1_002);
    assert!(matches!(again, Err(VoteError::BadRequest("You already voted for this vote"))));
    assert_eq!(counts(&ledger.get_vote(hash.clone()).unwrap()), vec![0, 1]);

    let after_alice = ledger.vote(&alice, hash.clone(), 0, 1_003).unwrap();
    assert_eq!(counts(&after_alice), vec![1, 1]);

    let alice_history = ledger.get_my_vote(&alice).unwrap();
    assert_eq!(owned(&alice_history, &hash), Some(Some(vec![0])));
    assert_eq!(participated(&alice_history, &hash), None);
    let bob_history = ledger.get_my_vote(&bob).unwrap();
    assert_eq!(participated(&bob_history, &hash), Some(Some(vec![1])));
    assert_eq!(owned(&bob_history, &hash), None);
}

#[test]
fn new_poll_has_defaults_and_window() {
    let alice = id(&[1]);
    let mut ledger = Ledger::new();
    let poll = ledger.create_vote(&alice, "T".to_string(), names(&[]), 5_000).unwrap();
    assert_eq!(VOTING_WINDOW, 604_800);
    assert_eq!(poll.created_at, 5_000);
    assert_eq!(poll.expired_at, 609_800);
    assert_eq!(poll.max_selection, 1);
    assert!(poll.public);
    assert_eq!(poll.title, "T");
    assert_eq!(poll.created_by.bytes, vec![1]);
    assert!(poll.items.is_empty());
    let history = ledger.get_my_vote(&alice).unwrap();
    assert_eq!(owned(&history, &poll.hash), Some(None));
}

#[test]
fn creating_twice_merges_items_without_duplicates() {
    let alice = id(&[1]);
    let mut ledger = Ledger::new();
    let first = ledger
        .create_vote(&alice, "Lunch".to_string(), names(&["Pizza", "Sushi"]), 10)
        .unwrap();
    let second = ledger
        .create_vote(&alice, "Lunch".to_string(), names(&["Sushi", "Tacos", "Pizza", "pizza"]), 20)
        .unwrap();
    assert_eq!(first.hash, second.hash);
    assert_eq!(item_names(&second), names(&["Pizza", "Sushi", "Tacos", "pizza"]));
    assert_eq!(second.items.iter().map(|i| i.index).collect::<Vec<_>>(), vec![0, 1, 2, 3]);
    assert_eq!(second.created_at, 10);
    assert_eq!(second.expired_at, 10 + VOTING_WINDOW);
    assert_eq!(ledger.get_public_vote().unwrap().len(), 1);
}

#[test]
fn creating_keeps_the_owner_votes_marked() {
    let alice = id(&[1]);
    let mut ledger = Ledger::new();
    let poll = ledger.create_vote(&alice, "A".to_string(), names(&["x"]), 10).unwrap();
    ledger.create_vote(&alice, "A".to_string(), names(&["y"]), 11).unwrap();
    let history = ledger.get_my_vote(&alice).unwrap();
    assert_eq!(history.owned.len(), 1);
    assert_eq!(owned(&history, &poll.hash), Some(None));
}

#[test]
fn creating_after_a_vote_is_refused_and_changes_nothing() {
    let alice = id(&[1]);
    let bob = id(&[2]);
    let mut ledger = Ledger::new();
    let poll = ledger.create_vote(&alice, "Lunch".to_string(), names(&["Pizza"]), 10).unwrap();
    ledger.vote(&bob, poll.hash.clone(), 0, 11).unwrap();
    let refused = ledger.create_vote(&alice, "Lunch".to_string(), names(&["Sushi"]), 12);
    assert!(matches!(
        refused,
        Err(VoteError::BadRequest("Vote record already has votes, not allowed to add more items"))
    ));
    let stored = ledger.get_vote(poll.hash.clone()).unwrap();
    assert_eq!(item_names(&stored), names(&["Pizza"]));
    assert_eq!(counts(&stored), vec![1]);
}

#[test]
fn creating_after_the_deadline_is_refused() {
    let alice = id(&[1]);
    let mut ledger = Ledger::new();
    let poll = ledger.create_vote(&alice, "Lunch".to_string(), names(&["Pizza"]), 10).unwrap();
    let at_deadline =
        ledger.create_vote(&alice, "Lunch".to_string(), names(&["Sushi"]), poll.expired_at);
    assert_eq!(item_names(&at_deadline.unwrap()), names(&["Pizza", "Sushi"]));
    let late =
        ledger.create_vote(&alice, "Lunch".to_string(), names(&["Tacos"]), poll.expired_at + 1);
    assert!(matches!(
        late,
        Err(VoteError::BadRequest(
            "Vote record already has expired, not allowed to add more items"
        ))
    ));
    assert_eq!(item_names(&ledger.get_vote(poll.hash).unwrap()), names(&["Pizza", "Sushi"]));
}

#[test]
fn a_poll_created_at_the_end_of_time_never_expires() {
    let alice = id(&[1]);
    let mut ledger = Ledger::new();
    let poll = ledger
        .create_vote(&alice, "Late".to_string(), names(&["x"]), u64::MAX - 5)
        .unwrap();
    assert_eq!(poll.created_at, u64::MAX - 5);
    assert_eq!(poll.expired_at, u64::MAX);
    let more = ledger.create_vote(&alice, "Late".to_string(), names(&["y"]), u64::MAX).unwrap();
    assert_eq!(item_names(&more), names(&["x", "y"]));
    let voted = ledger.vote(&id(&[2]), poll.hash, 1, u64::MAX).unwrap();
    assert_eq!(counts(&voted), vec![0, 1]);
}

#[test]
fn vote_for_unknown_poll_is_not_found() {
    let mut ledger = Ledger::new();
    let out = ledger.vote(&id(&[1]), "nope".to_string(), 0, 1);
    assert!(matches!(out, Err(VoteError::NotFound("Failed to vote, vote record not found"))));
    assert!(ledger.users.entries.is_empty());
}

#[test]
fn vote_out_of_range_is_refused() {
    let alice = id(&[1]);
    let bob = id(&[2]);
    let mut ledger = Ledger::new();
    let poll = ledger.create_vote(&alice, "Lunch".to_string(), names(&["Pizza"]), 10).unwrap();
    let out = ledger.vote(&bob, poll.hash.clone(), 1, 11);
    assert!(matches!(out, Err(VoteError::BadRequest("Vote item not found, index out of range"))));
    assert!(matches!(ledger.get_my_vote(&bob), Err(VoteError::NotFound("No vote record found"))));
    assert_eq!(counts(&ledger.get_vote(poll.hash).unwrap()), vec![0]);
}

#[test]
fn vote_expiry_boundary() {
    let alice = id(&[1]);
    let mut ledger = Ledger::new();
    let poll = ledger
        .create_vote(&alice, "Lunch".to_string(), names(&["Pizza", "Sushi", "Tacos"]), 1_000)
        .unwrap();
    let deadline = poll.expired_at;
    assert_eq!(deadline, 605_800);
    let before = ledger.vote(&id(&[2]), poll.hash.clone(), 0, deadline - 1).unwrap();
    assert_eq!(counts(&before), vec![1, 0, 0]);
    let at = ledger.vote(&id(&[3]), poll.hash.clone(), 1, deadline).unwrap();
    assert_eq!(counts(&at), vec![1, 1, 0]);
    let after = ledger.vote(&id(&[4]), poll.hash.clone(), 2, deadline + 1);
    assert!(matches!(
        after,
        Err(VoteError::BadRequest("Vote has already expired, not allowed to vote anymore"))
    ));
    assert_eq!(counts(&ledger.get_vote(poll.hash).unwrap()), vec![1, 1, 0]);
}

#[test]
fn only_the_first_identical_vote_counts() {
    let alice = id(&[1]);
    let bob = id(&[2]);
    let mut ledger = Ledger::new();
    let poll = ledger.create_vote(&alice, "Lunch".to_string(), names(&["Pizza", "Sushi"]), 10).unwrap();
    assert_eq!(counts(&ledger.vote(&bob, poll.hash.clone(), 0, 11).unwrap()), vec![1, 0]);
    for later in 12..15u64 {
        let out = ledger.vote(&bob, poll.hash.clone(), 0, later);
        assert!(matches!(out, Err(VoteError::BadRequest("You already voted for this vote"))));
    }
    assert_eq!(counts(&ledger.get_vote(poll.hash.clone()).unwrap()), vec![1, 0]);
    assert_eq!(counts(&ledger.vote(&bob, poll.hash.clone(), 1, 16).unwrap()), vec![1, 1]);
    let history = ledger.get_my_vote(&bob).unwrap();
    assert_eq!(participated(&history, &poll.hash), Some(Some(vec![0, 1])));
}

#[test]
fn counts_equal_the_number_of_voters() {
    let alice = id(&[1]);
    let mut ledger = Ledger::new();
    let poll = ledger.create_vote(&alice, "Lunch".to_string(), names(&["Pizza", "Sushi"]), 10).unwrap();
    for voter in 2..7u8 {
        ledger.vote(&id(&[voter]), poll.hash.clone(), (voter % 2) as usize, 11).unwrap();
    }
    ledger.vote(&alice, poll.hash.clone(), 1, 12).unwrap();
    let stored = ledger.get_vote(poll.hash.clone()).unwrap();
    assert_eq!(counts(&stored), vec![3, 3]);
    let mut for_first = 0;
    let mut for_second = 0;
    for entry in ledger.users.entries.iter() {
        let list = if entry.principal.bytes == stored.created_by.bytes {
            owned(&entry.record, &poll.hash)
        } else {
            participated(&entry.record, &poll.hash)
        };
        if let Some(Some(list)) = list {
            for_first += list.iter().filter(|i| **i == 0).count();
            for_second += list.iter().filter(|i| **i == 1).count();
        }
    }
    assert_eq!((for_first, for_second), (3, 3));
}

#[test]
fn lookups_on_an_empty_ledger_find_nothing() {
    let ledger = Ledger::new();
    assert!(matches!(
        ledger.get_vote("x".to_string()),
        Err(VoteError::NotFound("Vote record not found"))
    ));
    assert!(matches!(
        ledger.get_my_vote(&id(&[1])),
        Err(VoteError::NotFound("No vote record found"))
    ));
    assert!(matches!(
        ledger.get_public_vote(),
        Err(VoteError::NotFound("No vote record found"))
    ));
}

#[test]
fn listing_returns_every_poll_sorted_by_hash() {
    let alice = id(&[1]);
    let bob = id(&[2]);
    let mut ledger = Ledger::new();
    let a = ledger.create_vote(&alice, "A".to_string(), names(&["x"]), 10).unwrap();
    let b = ledger.create_vote(&bob, "B".to_string(), names(&["y", "z"]), 11).unwrap();
    let c = ledger.create_vote(&alice, "C".to_string(), names(&[]), 12).unwrap();
    let d = ledger.create_vote(&bob, "D".to_string(), names(&[]), 13).unwrap();
    let mut expected = vec![a.hash.clone(), b.hash.clone(), c.hash, d.hash];
    expected.sort();
    let listed = ledger.get_public_vote().unwrap();
    assert_eq!(listed.iter().map(|p| p.hash.clone()).collect::<Vec<_>>(), expected);
    let second = listed.iter().find(|p| p.hash == b.hash).unwrap();
    assert_eq!(item_names(second), names(&["y", "z"]));
    let stored: Vec<String> = ledger.votes.records.iter().map(|p| p.title.clone()).collect();
    assert_eq!(stored, names(&["A", "B", "C", "D"]));
}

#[test]
fn same_title_by_another_caller_is_another_poll() {
    let mut ledger = Ledger::new();
    let a = ledger.create_vote(&id(&[1]), "Lunch".to_string(), names(&["x"]), 10).unwrap();
    let b = ledger.create_vote(&id(&[2]), "Lunch".to_string(), names(&["y"]), 10).unwrap();
    assert_ne!(a.hash, b.hash);
    assert_eq!(ledger.get_public_vote().unwrap().len(), 2);
}
