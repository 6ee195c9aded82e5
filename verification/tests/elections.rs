use ranked_choice::election::Context;
use ranked_choice::replace::ValidationError;
use ranked_choice::schema::{Ballot, Item, NewUser, User, Vote};
use ranked_choice::store::Store;

fn open_item(id: i32, title: &str) -> Item {
    Item { id, title: title.to_string(), body: String::new(), done: false }
}

fn closed_item(id: i32, title: &str) -> Item {
    Item { id, title: title.to_string(), body: String::new(), done: true }
}

fn catalog_abc() -> Store {
    let items = vec![open_item(1, "A"), open_item(2, "B"), open_item(3, "C")];
    Store::from_tables(items, Vec::new(), Vec::new()).unwrap()
}

fn cast(store: &mut Store, voter: i32, votes: Vec<i32>) {
    assert_eq!(Vote::save_ballot(voter, Ballot { votes }, store), Ok(()));
}

#[test]
fn majority_winner_is_elected() {
    let mut store = catalog_abc();
    cast(&mut store, 1, vec![1, 2, 3]);
    cast(&mut store, 2, vec![1, 3, 2]);
    cast(&mut store, 3, vec![2, 1, 3]);
    assert_eq!(Vote::run_election(&store), Some(open_item(1, "A")));
}

#[test]
fn tie_resolves_to_smallest_id_and_runner_up_is_counted_without_it() {
    let mut store = catalog_abc();
    cast(&mut store, 1, vec![1, 2]);
    cast(&mut store, 2, vec![2, 3]);
    cast(&mut store, 3, vec![3, 1]);
    let winner = Vote::run_election(&store);
    assert_eq!(winner, Some(open_item(1, "A")));
    assert_eq!(
        store.ballots_for_active_items(&vec![1]),
        vec![vec![2], vec![2, 3], vec![3]]
    );
    assert_eq!(Vote::run_second_election(&store, &winner), Some(open_item(2, "B")));
}

#[test]
fn no_ballots_no_winner_no_runner_up() {
    let store = catalog_abc();
    let page = Context::new(&store);
    assert_eq!(page.winner, None);
    assert_eq!(page.second, None);
    assert!(page.items.is_empty());
    assert_eq!(Vote::run_second_election(&store, &None), None);
}

#[test]
fn ballot_for_closed_item_is_rejected_and_prior_ballot_stays() {
    let items = vec![open_item(1, "A"), open_item(2, "B"), closed_item(3, "C")];
    let mut store = Store::from_tables(items, Vec::new(), Vec::new()).unwrap();
    cast(&mut store, 7, vec![2, 1]);
    let before = store.votes().clone();
    let saved = Vote::save_ballot(7, Ballot { votes: vec![1, 3] }, &mut store);
    assert_eq!(saved, Err(ValidationError::ClosedItem(3)));
    assert_eq!(store.votes(), &before);
    assert_eq!(store.ballot_for(7), vec![2, 1]);
}

#[test]
fn ballot_for_unknown_item_is_rejected() {
    let mut store = catalog_abc();
    let saved = Vote::save_ballot(1, Ballot { votes: vec![1, 9, 2] }, &mut store);
    assert_eq!(saved, Err(ValidationError::UnknownItem(9)));
    assert!(store.votes().is_empty());
}

#[test]
fn ballot_with_repeated_item_is_rejected() {
    let mut store = catalog_abc();
    cast(&mut store, 1, vec![3]);
    let saved = Vote::save_ballot(1, Ballot { votes: vec![1, 2, 1] }, &mut store);
    assert_eq!(saved, Err(ValidationError::DuplicateItem(1)));
    assert_eq!(store.ballot_for(1), vec![3]);
}

#[test]
fn first_fault_in_list_order_is_reported() {
    let items = vec![open_item(1, "A"), closed_item(2, "B")];
    let mut store = Store::from_tables(items, Vec::new(), Vec::new()).unwrap();
    assert_eq!(
        Vote::save_ballot(1, Ballot { votes: vec![1, 1, 2, 5] }, &mut store),
        Err(ValidationError::DuplicateItem(1))
    );
    assert_eq!(
        Vote::save_ballot(1, Ballot { votes: vec![5, 2, 1, 1] }, &mut store),
        Err(ValidationError::UnknownItem(5))
    );
    assert_eq!(store.validate_ballot(&vec![2, 5]), Some(ValidationError::ClosedItem(2)));
    assert_eq!(store.validate_ballot(&vec![1]), None);
    assert_eq!(store.validate_ballot(&vec![]), None);
}

#[test]
fn saved_ballot_reads_back_in_order() {
    let mut store = catalog_abc();
    cast(&mut store, 5, vec![3, 1, 2]);
    assert_eq!(store.ballot_for(5), vec![3, 1, 2]);
    assert_eq!(
        store.votes(),
        &vec![
            Vote { user_id: 5, item_id: 3, ordinal: 0 },
            Vote { user_id: 5, item_id: 1, ordinal: 1 },
            Vote { user_id: 5, item_id: 2, ordinal: 2 },
        ]
    );
}

#[test]
fn replacing_a_ballot_discards_the_old_one_and_leaves_the_others() {
    let mut store = catalog_abc();
    cast(&mut store, 2, vec![1, 2, 3]);
    cast(&mut store, 1, vec![3]);
    cast(&mut store, 3, vec![2, 3]);
    cast(&mut store, 2, vec![2]);
    assert_eq!(store.ballot_for(1), vec![3]);
    assert_eq!(store.ballot_for(2), vec![2]);
    assert_eq!(store.ballot_for(3), vec![2, 3]);
    assert_eq!(
        store.votes(),
        &vec![
            Vote { user_id: 1, item_id: 3, ordinal: 0 },
            Vote { user_id: 2, item_id: 2, ordinal: 0 },
            Vote { user_id: 3, item_id: 2, ordinal: 0 },
            Vote { user_id: 3, item_id: 3, ordinal: 1 },
        ]
    );
}

#[test]
fn empty_ballot_withdraws_the_voter() {
    let mut store = catalog_abc();
    cast(&mut store, 1, vec![1]);
    cast(&mut store, 2, vec![2, 1]);
    cast(&mut store, 2, vec![]);
    assert_eq!(store.ballot_for(2), Vec::<i32>::new());
    assert_eq!(store.ballots_for_active_items(&Vec::new()), vec![vec![1]]);
    assert_eq!(Vote::run_election(&store), Some(open_item(1, "A")));
}

#[test]
fn ballots_are_cut_by_voter_and_restricted_to_open_items() {
    let items = vec![open_item(1, "A"), closed_item(2, "B"), open_item(3, "C")];
    let votes = vec![
        Vote { user_id: 1, item_id: 2, ordinal: 0 },
        Vote { user_id: 1, item_id: 3, ordinal: 1 },
        Vote { user_id: 4, item_id: 2, ordinal: 0 },
        Vote { user_id: 6, item_id: 1, ordinal: 0 },
        Vote { user_id: 6, item_id: 9, ordinal: 1 },
        Vote { user_id: 6, item_id: 3, ordinal: 2 },
        Vote { user_id: 8, item_id: 3, ordinal: 0 },
    ];
    let store = Store::from_tables(items, Vec::new(), votes).unwrap();
    assert_eq!(
        store.ballots_for_active_items(&Vec::new()),
        vec![vec![3], vec![1, 3], vec![3]]
    );
    assert_eq!(store.ballots_for_active_items(&vec![3]), vec![vec![1]]);
    assert_eq!(store.ballots_for_active_items(&vec![1, 3]), Vec::<Vec<i32>>::new());
}

#[test]
fn closed_item_never_wins() {
    let items = vec![open_item(1, "A"), closed_item(2, "B")];
    let votes = vec![
        Vote { user_id: 1, item_id: 2, ordinal: 0 },
        Vote { user_id: 2, item_id: 2, ordinal: 0 },
        Vote { user_id: 3, item_id: 2, ordinal: 0 },
        Vote { user_id: 3, item_id: 1, ordinal: 1 },
    ];
    let store = Store::from_tables(items, Vec::new(), votes).unwrap();
    let winner = Vote::run_election(&store);
    assert_eq!(winner, Some(open_item(1, "A")));
    assert_eq!(Vote::run_second_election(&store, &winner), None);
}

#[test]
fn runner_up_is_never_the_winner() {
    let mut store = catalog_abc();
    cast(&mut store, 1, vec![1, 2]);
    cast(&mut store, 2, vec![1, 3]);
    cast(&mut store, 3, vec![1]);
    let page = Context::new(&store);
    assert_eq!(page.winner, Some(open_item(1, "A")));
    // without A the ballots are [2] and [3]: a tie, resolved to the smaller id
    assert_eq!(page.second, Some(open_item(2, "B")));
}

#[test]
fn page_for_voter_lists_ranked_items_first() {
    let items = vec![open_item(1, "A"), closed_item(2, "B"), open_item(3, "C"), open_item(4, "D")];
    let mut store = Store::from_tables(items, Vec::new(), Vec::new()).unwrap();
    cast(&mut store, 9, vec![4, 1]);
    cast(&mut store, 8, vec![3]);
    let page = Context::for_user(9, &store);
    assert_eq!(
        page.items,
        vec![
            (open_item(4, "D"), Some(0)),
            (open_item(1, "A"), Some(1)),
            (open_item(3, "C"), None),
        ]
    );
    assert_eq!(page.winner, Some(open_item(3, "C")));
    assert_eq!(page.second, Some(open_item(4, "D")));
}

#[test]
fn ranked_item_that_was_closed_later_is_not_listed() {
    let items = vec![open_item(1, "A"), closed_item(2, "B")];
    let votes = vec![
        Vote { user_id: 1, item_id: 2, ordinal: 0 },
        Vote { user_id: 1, item_id: 1, ordinal: 1 },
    ];
    let store = Store::from_tables(items, Vec::new(), votes).unwrap();
    assert_eq!(Item::for_user(1, &store), vec![(open_item(1, "A"), Some(1))]);
}

#[test]
fn voter_without_ballot_sees_every_open_item_unranked() {
    let items = vec![open_item(1, "A"), closed_item(2, "B"), open_item(3, "C")];
    let mut store = Store::from_tables(items, Vec::new(), Vec::new()).unwrap();
    cast(&mut store, 1, vec![3, 1]);
    assert_eq!(
        Item::for_user(2, &store),
        vec![(open_item(1, "A"), None), (open_item(3, "C"), None)]
    );
    let with_abstainer = Vote::run_election(&store);
    assert_eq!(with_abstainer, Some(open_item(3, "C")));
}

#[test]
fn login_registers_once_and_finds_again() {
    let mut store = Store::new();
    let ann = NewUser { username: "ann".to_string() }.login(&mut store);
    assert_eq!(ann, Some(User { id: 1, username: "ann".to_string() }));
    let bob = NewUser { username: "bob".to_string() }.login(&mut store);
    assert_eq!(bob, Some(User { id: 2, username: "bob".to_string() }));
    let again = NewUser { username: "ann".to_string() }.login(&mut store);
    assert_eq!(again, ann);
    assert_eq!(store.users().len(), 2);
}

#[test]
fn login_takes_the_id_after_the_greatest() {
    let users = vec![
        User { id: 40, username: "x".to_string() },
        User { id: 7, username: "y".to_string() },
    ];
    let mut store = Store::from_tables(Vec::new(), users, Vec::new()).unwrap();
    let z = NewUser { username: "z".to_string() }.login(&mut store);
    assert_eq!(z, Some(User { id: 41, username: "z".to_string() }));
}

#[test]
fn login_fails_when_no_id_is_left() {
    let users = vec![User { id: i32::MAX, username: "last".to_string() }];
    let mut store = Store::from_tables(Vec::new(), users, Vec::new()).unwrap();
    assert_eq!(NewUser { username: "late".to_string() }.login(&mut store), None);
    assert_eq!(store.users().len(), 1);
    let known = NewUser { username: "last".to_string() }.login(&mut store);
    assert_eq!(known, Some(User { id: i32::MAX, username: "last".to_string() }));
}

#[test]
fn tables_out_of_order_are_refused() {
    let v = |user_id: i32, item_id: i32, ordinal: i32| Vote { user_id, item_id, ordinal };
    let load = |votes: Vec<Vote>| Store::from_tables(Vec::new(), Vec::new(), votes).is_some();
    assert!(load(vec![v(1, 5, 0), v(1, 6, 1), v(2, 5, 0)]));
    assert!(!load(vec![v(2, 5, 0), v(1, 5, 0)]));
    assert!(!load(vec![v(1, 5, 1)]));
    assert!(!load(vec![v(1, 5, 0), v(1, 6, 2)]));
    assert!(!load(vec![v(1, 5, 0), v(1, 5, 1)]));
    assert!(!load(vec![v(1, 5, 0), v(2, 6, 0), v(1, 7, 1)]));
    assert!(!load(vec![v(1, 5, -1)]));
}

#[test]
fn tables_with_repeated_keys_are_refused() {
    let items = vec![open_item(1, "A"), closed_item(1, "B")];
    assert!(Store::from_tables(items, Vec::new(), Vec::new()).is_none());
    let same_id = vec![
        User { id: 1, username: "a".to_string() },
        User { id: 1, username: "b".to_string() },
    ];
    assert!(Store::from_tables(Vec::new(), same_id, Vec::new()).is_none());
    let same_name = vec![
        User { id: 1, username: "a".to_string() },
        User { id: 2, username: "a".to_string() },
    ];
    assert!(Store::from_tables(Vec::new(), same_name, Vec::new()).is_none());
}

#[test]
fn find_item_by_id() {
    let store = catalog_abc();
    assert_eq!(store.find_item(2), Some(&open_item(2, "B")));
    assert_eq!(store.find_item(5), None);
}
