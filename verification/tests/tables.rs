use ranked_choice::layout::{items_distinct, users_distinct, votes_in_order};
use ranked_choice::schema::{Item, User, Vote};
use ranked_choice::store::{item_is_open, Store};

fn entry(user_id: i32, item_id: i32, ordinal: i32) -> Vote {
    Vote { user_id, item_id, ordinal }
}

fn thing(id: i32, done: bool) -> Item {
    Item { id, title: format!("item {}", id), body: String::new(), done }
}

fn person(id: i32, username: &str) -> User {
    User { id, username: username.to_string() }
}

#[test]
fn new_store_is_empty() {
    let store = Store::new();
    assert!(store.items().is_empty());
    assert!(store.users().is_empty());
    assert!(store.votes().is_empty());
    assert_eq!(store.ballot_for(1), Vec::<i32>::new());
    assert_eq!(store.ballots_for_active_items(&Vec::new()), Vec::<Vec<i32>>::new());
}

#[test]
fn tables_are_held_as_handed_in() {
    let items = vec![thing(3, false), thing(1, true)];
    let users = vec![person(2, "b"), person(1, "a")];
    let votes = vec![entry(1, 3, 0), entry(1, 1, 1), entry(2, 1, 0)];
    let store = Store::from_tables(items, users, votes.clone()).unwrap();
    assert_eq!(store.items(), &vec![thing(3, false), thing(1, true)]);
    assert_eq!(store.users(), &vec![person(2, "b"), person(1, "a")]);
    assert_eq!(store.votes(), &votes);
}

#[test]
fn rows_of_one_voter() {
    let votes = vec![entry(1, 3, 0), entry(2, 4, 0), entry(2, 3, 1), entry(5, 4, 0)];
    let store = Store::from_tables(Vec::new(), Vec::new(), votes).unwrap();
    assert_eq!(store.rows_for(2), vec![entry(2, 4, 0), entry(2, 3, 1)]);
    assert_eq!(store.rows_for(3), Vec::<Vote>::new());
    assert_eq!(store.ballot_for(2), vec![4, 3]);
    assert_eq!(store.ballot_for(5), vec![4]);
}

#[test]
fn votes_in_order_accepts_ordered_rows() {
    assert!(votes_in_order(&Vec::new()));
    assert!(votes_in_order(&vec![entry(-3, 1, 0)]));
    assert!(votes_in_order(&vec![entry(1, 9, 0), entry(1, 8, 1), entry(1, 7, 2), entry(4, 9, 0)]));
}

#[test]
fn votes_in_order_refuses_each_breach() {
    // voters not ascending
    assert!(!votes_in_order(&vec![entry(4, 9, 0), entry(1, 9, 0)]));
    // a voter's rows apart
    assert!(!votes_in_order(&vec![entry(1, 9, 0), entry(2, 9, 0), entry(1, 8, 1)]));
    // ordinals not from 0
    assert!(!votes_in_order(&vec![entry(1, 9, 1), entry(1, 8, 2)]));
    // ordinals with a gap
    assert!(!votes_in_order(&vec![entry(1, 9, 0), entry(1, 8, 2)]));
    // ordinals out of order
    assert!(!votes_in_order(&vec![entry(1, 9, 1), entry(1, 8, 0)]));
    // an item ranked twice by one voter
    assert!(!votes_in_order(&vec![entry(1, 9, 0), entry(1, 8, 1), entry(1, 9, 2)]));
    // the same item for two voters is fine
    assert!(votes_in_order(&vec![entry(1, 9, 0), entry(2, 9, 0)]));
}

#[test]
fn items_distinct_by_id() {
    assert!(items_distinct(&Vec::new()));
    assert!(items_distinct(&vec![thing(1, false), thing(2, false), thing(3, true)]));
    assert!(!items_distinct(&vec![thing(1, false), thing(2, false), thing(1, true)]));
}

#[test]
fn users_distinct_by_id_and_name() {
    assert!(users_distinct(&vec![person(1, "a"), person(2, "b")]));
    assert!(!users_distinct(&vec![person(1, "a"), person(1, "b")]));
    assert!(!users_distinct(&vec![person(1, "a"), person(2, "b"), person(3, "a")]));
}

#[test]
fn open_items_are_those_not_done() {
    let items = vec![thing(1, false), thing(2, true)];
    assert!(item_is_open(&items, 1));
    assert!(!item_is_open(&items, 2));
    assert!(!item_is_open(&items, 3));
}
