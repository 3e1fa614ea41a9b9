use dvote_backend::hash::poll_hash;
use dvote_backend::identity::{bytes_equal, copy_bytes, Identity, MAX_IDENTITY_BYTES};
use dvote_backend::ledger::voting_deadline;
use dvote_backend::user::UserVoteRecord;
use dvote_backend::vote::{VoteError, VoteItem, VoteRecord};
use std::collections::hash_map::DefaultHasher;
use std::hash::Hasher;

fn blank_poll() -> VoteRecord {
    VoteRecord::new(
        Identity::new(vec![7]).unwrap(),
        "Lunch".to_string(),
        "h".to_string(),
        100,
        200,
        1,
        true,
    )
}

fn lookup(list: &[dvote_backend::user::VoteHistory], hash: &str) -> Option<Option<Vec<usize>>> {
    list.iter().find(|entry| entry.hash == hash).map(|entry| entry.indices.clone())
}

#[test]
fn identity_takes_at_most_29_bytes() {
    assert_eq!(MAX_IDENTITY_BYTES, 29);
    assert!(Identity::new(vec![0; 29]).is_some());
    assert!(Identity::new(vec![0; 30]).is_none());
    assert!(Identity::new(vec![]).is_some());
}

#[test]
fn identities_compare_by_bytes() {
    let a = Identity::new(vec![1, 2]).unwrap();
    assert!(a.same(&Identity::new(vec![1, 2]).unwrap()));
    assert!(!a.same(&Identity::new(vec![1, 3]).unwrap()));
    assert!(!a.same(&Identity::new(vec![1]).unwrap()));
    assert!(a.same(&a.clone()));
    assert!(bytes_equal(&copy_bytes(&vec![5, 6, 7]), &vec![5, 6, 7]));
}

#[test]
fn identity_text_is_the_principal_text() {
    assert_eq!(Identity::new(vec![]).unwrap().to_text(), "aaaaa-aa");
    assert_eq!(Identity::new(vec![4]).unwrap().to_text(), "2vxsx-fae");
    let text = Identity::new(vec![0xab, 0xcd, 0x01]).unwrap().to_text();
    assert_eq!(candid::Principal::from_text(&text).unwrap().as_slice(), &[0xab, 0xcd, 0x01]);
}

#[test]
fn poll_hash_is_the_decimal_digest_of_text_and_title() {
    let anonymous = Identity::new(vec![4]).unwrap();
    let mut hasher = DefaultHasher::new();
    hasher.write("2vxsx-faeLunch".as_bytes());
    let expected = hasher.finish().to_string();
    let hash = poll_hash(&anonymous, &"Lunch".to_string());
    assert_eq!(hash, expected);
    assert!(hash.chars().all(|c| c.is_ascii_digit()));
    assert_eq!(hash.parse::<u64>().unwrap().to_string(), hash);
    assert_eq!(hash, poll_hash(&anonymous, &"Lunch".to_string()));
    assert_ne!(hash, poll_hash(&anonymous, &"Dinner".to_string()));
    assert_ne!(hash, poll_hash(&Identity::new(vec![5]).unwrap(), &"Lunch".to_string()));
}

#[test]
fn new_record_holds_what_it_was_given() {
    let poll = blank_poll();
    assert_eq!(poll.created_by.bytes, vec![7]);
    assert_eq!(poll.title, "Lunch");
    assert_eq!(poll.hash, "h");
    assert_eq!(poll.created_at, 100);
    assert_eq!(poll.expired_at, 200);
    assert_eq!(poll.max_selection, 1);
    assert!(poll.public);
    assert!(poll.items.is_empty());
    assert!(!poll.has_voted());
}

#[test]
fn items_are_appended_once_at_the_next_index() {
    let mut poll = blank_poll();
    poll.add_vote_item("Pizza".to_string());
    poll.add_vote_item("Sushi".to_string());
    poll.add_vote_item("Pizza".to_string());
    assert_eq!(poll.items.len(), 2);
    assert_eq!((poll.items[0].index, poll.items[0].name.as_str(), poll.items[0].count), (0, "Pizza", 0));
    assert_eq!((poll.items[1].index, poll.items[1].name.as_str(), poll.items[1].count), (1, "Sushi", 0));
    assert!(poll.is_duplicate("Pizza".to_string()));
    assert!(!poll.is_duplicate("pizza".to_string()));
    assert!(!poll.is_duplicate("".to_string()));
}

#[test]
fn offering_a_list_skips_what_is_there() {
    let mut poll = blank_poll();
    poll.add_vote_items(vec!["a".to_string(), "b".to_string(), "a".to_string()]);
    poll.add_vote_items(vec!["c".to_string(), "b".to_string()]);
    let names: Vec<&str> = poll.items.iter().map(|i| i.name.as_str()).collect();
    assert_eq!(names, vec!["a", "b", "c"]);
    let indices: Vec<usize> = poll.items.iter().map(|i| i.index).collect();
    assert_eq!(indices, vec![0, 1, 2]);
}

#[test]
fn casting_counts_one_vote_for_one_item() {
    let mut poll = blank_poll();
    poll.add_vote_items(vec!["a".to_string(), "b".to_string()]);
    assert!(poll.cast(1).is_ok());
    assert!(poll.cast(1).is_ok());
    assert_eq!(poll.items[0].count, 0);
    assert_eq!(poll.items[1].count, 2);
    assert_eq!(poll.items[1].name, "b");
    assert_eq!(poll.items[1].index, 1);
    assert!(poll.has_voted());
    let out = poll.cast(2);
    assert!(matches!(out, Err(VoteError::BadRequest("Vote item not found, index out of range"))));
    assert_eq!(poll.items[1].count, 2);
}

#[test]
fn a_poll_expires_after_its_deadline() {
    let poll = blank_poll();
    assert!(!poll.is_expired(0));
    assert!(!poll.is_expired(199));
    assert!(!poll.is_expired(200));
    assert!(poll.is_expired(201));
    assert!(poll.is_expired(u64::MAX));
}

#[test]
fn cloned_records_are_equal_field_by_field() {
    let mut poll = blank_poll();
    poll.add_vote_items(vec!["a".to_string(), "b".to_string()]);
    poll.cast(0).unwrap();
    let copy = poll.clone();
    assert_eq!(copy.hash, poll.hash);
    assert_eq!(copy.items.len(), 2);
    assert_eq!(copy.items[0].count, 1);
    assert_eq!(copy.items[1].name, "b");
    let item: VoteItem = poll.items[0].clone();
    assert_eq!((item.index, item.name.as_str(), item.count), (0, "a", 1));
}

#[test]
fn a_new_history_is_empty() {
    let history = UserVoteRecord::new();
    assert!(history.owned.is_empty());
    assert!(history.participated.is_empty());
}

#[test]
fn marking_a_poll_as_created_keeps_recorded_votes() {
    let mut history = UserVoteRecord::new();
    history.add_created_vote("h".to_string());
    assert_eq!(lookup(&history.owned, "h"), Some(None));
    assert!(history.add_created_vote_index("h".to_string(), 2));
    history.add_created_vote("h".to_string());
    assert_eq!(lookup(&history.owned, "h"), Some(Some(vec![2])));
    assert_eq!(history.owned.len(), 1);
    assert!(history.participated.is_empty());
}

#[test]
fn owner_votes_are_recorded_once() {
    let mut history = UserVoteRecord::new();
    history.add_created_vote("h".to_string());
    history.add_created_vote("k".to_string());
    assert!(history.add_created_vote_index("h".to_string(), 0));
    assert!(history.add_created_vote_index("h".to_string(), 3));
    assert!(!history.add_created_vote_index("h".to_string(), 0));
    assert!(history.add_created_vote_index("k".to_string(), 0));
    assert_eq!(lookup(&history.owned, "h"), Some(Some(vec![0, 3])));
    assert_eq!(lookup(&history.owned, "k"), Some(Some(vec![0])));
}

#[test]
fn participant_votes_are_recorded_once() {
    let mut history = UserVoteRecord::new();
    assert!(history.add_participated_vote("h".to_string(), 1));
    assert!(!history.add_participated_vote("h".to_string(), 1));
    assert!(history.add_participated_vote("h".to_string(), 0));
    assert!(history.add_participated_vote("k".to_string(), 1));
    assert_eq!(lookup(&history.participated, "h"), Some(Some(vec![1, 0])));
    assert_eq!(lookup(&history.participated, "k"), Some(Some(vec![1])));
    assert!(history.owned.is_empty());
    let copy = history.clone();
    assert_eq!(lookup(&copy.participated, "h"), Some(Some(vec![1, 0])));
}

#[test]
fn a_poll_with_votes_takes_no_more_items() {
    let mut poll = blank_poll();
    assert!(poll.offer_items(vec!["a".to_string(), "b".to_string()], 150).is_ok());
    assert_eq!(poll.items.len(), 2);
    poll.cast(1).unwrap();
    let out = poll.offer_items(vec!["c".to_string()], 150);
    assert!(matches!(
        out,
        Err(VoteError::BadRequest("Vote record already has votes, not allowed to add more items"))
    ));
    assert_eq!(poll.items.len(), 2);
    assert_eq!(poll.items[1].count, 1);
}

#[test]
fn an_expired_poll_takes_no_more_items() {
    let mut poll = blank_poll();
    assert!(poll.offer_items(vec!["a".to_string()], 200).is_ok());
    let out = poll.offer_items(vec!["b".to_string()], 201);
    assert!(matches!(
        out,
        Err(VoteError::BadRequest(
            "Vote record already has expired, not allowed to add more items"
        ))
    ));
    assert_eq!(poll.items.len(), 1);
    assert_eq!(poll.items[0].name, "a");
}

#[test]
fn an_owner_vote_for_an_unknown_poll_is_recorded() {
    let mut history = UserVoteRecord::new();
    assert!(history.add_created_vote_index("h".to_string(), 2));
    assert_eq!(lookup(&history.owned, "h"), Some(Some(vec![2])));
    assert!(!history.add_created_vote_index("h".to_string(), 2));
    assert_eq!(lookup(&history.owned, "h"), Some(Some(vec![2])));
    assert!(history.participated.is_empty());
}

#[test]
fn a_participant_vote_fills_an_entry_without_a_list() {
    let mut history = UserVoteRecord::new();
    history.participated.push(dvote_backend::user::VoteHistory {
        hash: "h".to_string(),
        indices: None,
    });
    assert!(history.add_participated_vote("h".to_string(), 3));
    assert_eq!(lookup(&history.participated, "h"), Some(Some(vec![3])));
    assert_eq!(history.participated.len(), 1);
    assert!(!history.add_participated_vote("h".to_string(), 3));
    assert_eq!(lookup(&history.participated, "h"), Some(Some(vec![3])));
}

#[test]
fn the_deadline_is_one_window_after_creation() {
    assert_eq!(voting_deadline(0), 604_800);
    assert_eq!(voting_deadline(1_000), 605_800);
    assert_eq!(voting_deadline(u64::MAX - 604_800), u64::MAX);
    assert_eq!(voting_deadline(u64::MAX - 604_799), u64::MAX);
    assert_eq!(voting_deadline(u64::MAX), u64::MAX);
}
