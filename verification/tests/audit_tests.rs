use dvote_backend::hash::decimal_string;
use dvote_backend::identity::Identity;
use dvote_backend::ledger::Ledger;
use dvote_backend::order::text_before;
use dvote_backend::store::{UserEntry, UserVoteStore, VoteStore};
use dvote_backend::user::{UserVoteRecord, VoteHistory};
use dvote_backend::vote::VoteRecord;

fn id(bytes: &[u8]) -> Identity {
    Identity::new(bytes.to_vec()).unwrap()
}

fn voted_ledger() -> (Ledger, String) {
    let mut ledger = Ledger::new();
    let poll = ledger
        .create_vote(&id(&[1]), "Lunch".to_string(), vec!["Pizza".to_string(), "Sushi".to_string()], 10)
        .unwrap();
    ledger.vote(&id(&[2]), poll.hash.clone(), 1, 11).unwrap();
    ledger.vote(&id(&[3]), poll.hash.clone(), 1, 12).unwrap();
    ledger.vote(&id(&[1]), poll.hash.clone(), 0, 13).unwrap();
    ledger.create_vote(&id(&[2]), "Dinner".to_string(), vec!["Soup".to_string()], 14).unwrap();
    (ledger, poll.hash)
}

#[test]
fn texts_sort_as_strings_do() {
    let pairs = [
        ("10", "9"),
        ("9", "10"),
        ("", "a"),
        ("a", ""),
        ("a", "a"),
        ("ab", "abc"),
        ("abc", "ab"),
        ("abd", "abc"),
        ("z", "\u{e9}"),
        ("\u{e9}", "z"),
        ("", ""),
    ];
    for (a, b) in pairs {
        assert_eq!(text_before(&a.to_string(), &b.to_string()), a < b, "{a:?} {b:?}");
    }
    assert!(text_before(&"10".to_string(), &"9".to_string()));
    assert!(!text_before(&"abc".to_string(), &"abc".to_string()));
}

#[test]
fn decimal_string_writes_plain_decimal() {
    assert_eq!(decimal_string(0), "0");
    assert_eq!(decimal_string(7), "7");
    assert_eq!(decimal_string(10), "10");
    assert_eq!(decimal_string(1234567890), "1234567890");
    assert_eq!(decimal_string(u64::MAX), "18446744073709551615");
}

#[test]
fn ledgers_built_by_operations_are_valid() {
    assert!(Ledger::new().is_valid());
    let (ledger, _) = voted_ledger();
    assert!(ledger.is_valid());
    assert!(ledger.votes.is_valid());
    assert!(ledger.users.is_valid());
}

#[test]
fn voters_are_counted_per_item() {
    let (ledger, _) = voted_ledger();
    assert_eq!(ledger.count_voters(0, 0), 1);
    assert_eq!(ledger.count_voters(0, 1), 2);
    assert_eq!(ledger.count_voters(0, 2), 0);
    assert_eq!(ledger.count_voters(1, 0), 0);
}

#[test]
fn restoring_valid_stores_gives_them_back() {
    let (ledger, hash) = voted_ledger();
    let (votes, users): (VoteStore, UserVoteStore) = ledger.snapshot();
    let restored = Ledger::restore(votes, users);
    assert!(restored.is_valid());
    assert_eq!(
        restored.votes.records.iter().map(|p| p.hash.clone()).collect::<Vec<_>>(),
        ledger.votes.records.iter().map(|p| p.hash.clone()).collect::<Vec<_>>()
    );
    assert_eq!(restored.votes.records.len(), 2);
    assert_eq!(restored.users.entries.len(), 3);
    let poll = restored.get_vote(hash.clone()).unwrap();
    assert_eq!(poll.items.iter().map(|i| i.count).collect::<Vec<_>>(), vec![1, 2]);
    assert_eq!(poll.items.iter().map(|i| i.name.as_str()).collect::<Vec<_>>(), vec!["Pizza", "Sushi"]);
    let history = restored.get_my_vote(&id(&[2])).unwrap();
    assert_eq!(history.participated.len(), 1);
    assert_eq!(history.participated[0].hash, hash);
    assert_eq!(history.participated[0].indices, Some(vec![1]));
    assert_eq!(history.owned.len(), 1);
    assert_eq!(history.owned[0].indices, None);
}

#[test]
fn a_wrong_count_is_not_valid() {
    let (mut ledger, _) = voted_ledger();
    ledger.votes.records[0].items[1].count = 3;
    assert!(!ledger.is_valid());
    let restored = Ledger::restore(ledger.votes, ledger.users);
    assert!(restored.votes.records.is_empty());
    assert!(restored.users.entries.is_empty());
}

#[test]
fn a_poll_stored_twice_is_not_valid() {
    let (mut ledger, _) = voted_ledger();
    let again = ledger.votes.records[1].clone();
    ledger.votes.records.push(again);
    assert!(!ledger.votes.is_valid());
    assert!(!ledger.is_valid());
}

#[test]
fn a_caller_stored_twice_is_not_valid() {
    let (mut ledger, _) = voted_ledger();
    ledger.users.entries.push(UserEntry { principal: id(&[3]), record: UserVoteRecord::new() });
    assert!(!ledger.users.is_valid());
    assert!(!ledger.is_valid());
}

#[test]
fn misplaced_or_repeated_items_are_not_valid() {
    let mut poll = VoteRecord::new(id(&[1]), "t".to_string(), "h".to_string(), 1, 2, 1, true);
    poll.add_vote_items(vec!["a".to_string(), "b".to_string()]);
    assert!(poll.is_valid());
    let mut shifted = poll.clone();
    shifted.items[1].index = 5;
    assert!(!shifted.is_valid());
    let mut repeated = poll.clone();
    repeated.items[1].name = "a".to_string();
    assert!(!repeated.is_valid());
    let mut long = poll.clone();
    long.created_by = Identity { bytes: vec![0; 30] };
    assert!(!long.is_valid());
}

#[test]
fn malformed_histories_are_not_valid() {
    let mut twice = UserVoteRecord::new();
    twice.owned.push(VoteHistory { hash: "h".to_string(), indices: None });
    assert!(twice.is_valid());
    twice.owned.push(VoteHistory { hash: "h".to_string(), indices: Some(vec![0]) });
    assert!(!twice.is_valid());
    let mut again = UserVoteRecord::new();
    again.participated.push(VoteHistory { hash: "h".to_string(), indices: Some(vec![1]) });
    again.participated.push(VoteHistory { hash: "h".to_string(), indices: None });
    assert!(!again.is_valid());
}

#[test]
fn a_history_without_a_list_is_valid() {
    let mut listless = UserVoteRecord::new();
    listless.participated.push(VoteHistory { hash: "h".to_string(), indices: None });
    listless.owned.push(VoteHistory { hash: "h".to_string(), indices: None });
    assert!(listless.is_valid());
}

#[test]
fn a_snapshot_with_a_listless_entry_is_restored() {
    let (mut ledger, hash) = voted_ledger();
    ledger.users.entries[0].record.participated.push(VoteHistory {
        hash: "elsewhere".to_string(),
        indices: None,
    });
    assert!(ledger.is_valid());
    let (votes, users) = ledger.snapshot();
    let mut restored = Ledger::restore(votes, users);
    assert_eq!(restored.votes.records.len(), 2);
    assert_eq!(restored.users.entries.len(), 3);
    let history = restored.get_my_vote(&id(&[1])).unwrap();
    assert_eq!(history.participated.len(), 1);
    assert_eq!(history.participated[0].indices, None);
    let poll = restored.vote(&id(&[4]), hash, 0, 20).unwrap();
    assert_eq!(poll.items[0].count, 2);
}

#[test]
fn a_vote_for_a_missing_item_is_not_valid() {
    let (mut ledger, hash) = voted_ledger();
    ledger.users.entries[2].record.participated[0].indices = Some(vec![1, 7]);
    assert!(!ledger.is_valid());
    let (mut other, _) = voted_ledger();
    other.users.entries[2].record.participated.push(VoteHistory {
        hash: "unknown".to_string(),
        indices: Some(vec![0]),
    });
    assert!(!other.is_valid());
    let (mut fine, _) = voted_ledger();
    fine.users.entries[2].record.participated.push(VoteHistory {
        hash: "unknown".to_string(),
        indices: Some(vec![]),
    });
    assert!(fine.is_valid());
    assert!(!hash.is_empty());
}

#[test]
fn a_creator_without_the_poll_on_record_votes_as_owner() {
    let mut ledger = Ledger::new();
    let poll = ledger
        .create_vote(&id(&[1]), "Lunch".to_string(), vec!["Pizza".to_string()], 10)
        .unwrap();
    ledger.users.entries.clear();
    assert!(ledger.is_valid());
    let (votes, users) = ledger.snapshot();
    let mut restored = Ledger::restore(votes, users);
    assert_eq!(restored.votes.records.len(), 1);
    let voted = restored.vote(&id(&[1]), poll.hash.clone(), 0, 11).unwrap();
    assert_eq!(voted.items[0].count, 1);
    let history = restored.get_my_vote(&id(&[1])).unwrap();
    assert_eq!(history.owned.len(), 1);
    assert_eq!(history.owned[0].hash, poll.hash);
    assert_eq!(history.owned[0].indices, Some(vec![0]));
    assert!(history.participated.is_empty());
    assert!(restored.is_valid());
}
