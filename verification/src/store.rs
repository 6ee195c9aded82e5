//! The ballot store: the catalog, the users and every voter's ballot, held as
//! the rows of three relations.

use crate::chunks::{ballots_in, ballots_of_rows};
use crate::engine::{position, rankings};
use crate::layout::{items_distinct, users_distinct, votes_in_order};
use crate::replace::{
    entries, fault_from, first_fault, later, lemma_replaced_ballots, lemma_replaced_in_order,
    replaced, sooner, ValidationError,
};
use crate::rows::{
    ballot_of, cast_by, grouped, lemma_ballot_push, lemma_filter_grouped, ranked_in_order,
};
use crate::schema::{Item, User, Vote};
use vstd::prelude::*;

verus! {

/// No two items share an id.
pub open spec fn distinct_items(items: Seq<Item>) -> bool {
    forall|i: int, j: int| 0 <= i < j < items.len() ==> items[i].id != items[j].id
}

/// No two users share an id or a username.
pub open spec fn distinct_users(users: Seq<User>) -> bool {
    forall|i: int, j: int|
        0 <= i < j < users.len() ==> users[i].id != users[j].id && users[i].username@
            != users[j].username@
}

/// The three relations keep their rules: ids and usernames are keys, and the
/// ballot entries stand voter by voter with their ordinals counting from 0.
pub open spec fn tables_in_order(items: Seq<Item>, users: Seq<User>, votes: Seq<Vote>) -> bool {
    &&& distinct_items(items)
    &&& distinct_users(users)
    &&& grouped(votes)
    &&& ranked_in_order(votes)
}

/// `id` is the id of an item of `items` that is not closed.
pub open spec fn is_open(items: Seq<Item>, id: i32) -> bool {
    exists|i: int| 0 <= i < items.len() && #[trigger] items[i].id == id && !items[i].done
}

/// The item of `items` with this id, if there is one.
pub open spec fn item_with(items: Seq<Item>, id: i32) -> Option<Item> {
    if exists|i: int| 0 <= i < items.len() && #[trigger] items[i].id == id {
        Some(items[choose|i: int| 0 <= i < items.len() && #[trigger] items[i].id == id])
    } else {
        None
    }
}

/// The rows that count in an election: those for an open item that is not
/// excluded.
pub open spec fn in_the_running(items: Seq<Item>, excluded: Set<i32>) -> spec_fn(Vote) -> bool {
    |v: Vote| is_open(items, v.item_id) && !excluded.contains(v.item_id)
}

/// Whether `id` is the id of an item of `items` that is not closed.
pub fn item_is_open(items: &Vec<Item>, id: i32) -> (open: bool)
    ensures
        open == is_open(items@, id),
{
    let mut i: usize = 0;
    while i < items.len()
        invariant
            i <= items.len(),
            forall|j: int| 0 <= j < i ==> !(#[trigger] items[j].id == id && !items[j].done),
        decreases items.len() - i,
    {
        if items[i].id == id && !items[i].done {
            return true;
        }
        i += 1;
    }
    false
}

/// The user of `users` with this username, if there is one.
pub open spec fn account_named(users: Seq<User>, name: Seq<char>) -> Option<User> {
    if exists|i: int| 0 <= i < users.len() && (#[trigger] users[i]).username@ == name {
        Some(users[choose|i: int| 0 <= i < users.len() && (#[trigger] users[i]).username@ == name])
    } else {
        None
    }
}

/// The id that the next new user gets: one more than the greatest id in use, and
/// 1 where there is no user yet.
pub open spec fn next_id(users: Seq<User>) -> int
    decreases users.len(),
{
    if users.len() == 0 {
        1
    } else {
        let before = next_id(users.drop_last());
        if users.len() == 1 || users.last().id + 1 > before {
            users.last().id + 1
        } else {
            before
        }
    }
}

/// The id of the next new user is above every id in use.
pub proof fn lemma_next_id_unused(users: Seq<User>)
    ensures
        forall|i: int| 0 <= i < users.len() ==> (#[trigger] users[i]).id < next_id(users),
    decreases users.len(),
{
    if users.len() > 0 {
        lemma_next_id_unused(users.drop_last());
        assert forall|i: int| 0 <= i < users.len() implies (#[trigger] users[i]).id < next_id(
            users,
        ) by {
            if i < users.len() - 1 {
                assert(users.drop_last()[i].id < next_id(users.drop_last()));
            }
        }
    }
}

/// The catalog, the users and the ballots of one election.
pub struct Store {
    items: Vec<Item>,
    users: Vec<User>,
    votes: Vec<Vote>,
}

impl Store {
    /// The catalog.
    pub closed spec fn catalog(&self) -> Seq<Item> {
        self.items@
    }

    /// The registered users.
    pub closed spec fn accounts(&self) -> Seq<User> {
        self.users@
    }

    /// The ballot entries of all voters.
    pub closed spec fn rows(&self) -> Seq<Vote> {
        self.votes@
    }

    /// What holds of every store.
    #[verifier::type_invariant]
    pub open spec fn well_formed(&self) -> bool {
        tables_in_order(self.catalog(), self.accounts(), self.rows())
    }

    /// A store with no items, no users and no ballots.
    pub fn new() -> (store: Store)
        ensures
            store.catalog() == Seq::<Item>::empty(),
            store.accounts() == Seq::<User>::empty(),
            store.rows() == Seq::<Vote>::empty(),
            store.well_formed(),
    {
        let store = Store { items: Vec::new(), users: Vec::new(), votes: Vec::new() };
        store
    }

    /// A store that holds the three tables as they are handed in, if they keep
    /// the rules of the relations, and `None` if they do not: the ids of items and
    /// of users and the usernames must be keys, and the ballot entries must stand
    /// voter by voter in ascending order, each voter's entries numbered from 0
    /// with no item ranked twice.
    pub fn from_tables(items: Vec<Item>, users: Vec<User>, votes: Vec<Vote>) -> (store: Option<
        Store,
    >)
        ensures
            match store {
                Some(held) => tables_in_order(items@, users@, votes@) && held.catalog() == items@
                    && held.accounts() == users@ && held.rows() == votes@,
                None => !tables_in_order(items@, users@, votes@),
            },
    {
        if items_distinct(&items) && users_distinct(&users) && votes_in_order(&votes) {
            Some(Store { items, users, votes })
        } else {
            None
        }
    }

    /// The ballot entries of `voter`, in their order.
    pub fn rows_for(&self, voter: i32) -> (own: Vec<Vote>)
        ensures
            own@ == self.rows().filter(cast_by(voter)),
    {
        let mut own: Vec<Vote> = Vec::new();
        let mut i: usize = 0;
        while i < self.votes.len()
            invariant
                i <= self.votes.len(),
                own@ == self.votes@.take(i as int).filter(cast_by(voter)),
            decreases self.votes.len() - i,
        {
            let row = self.votes[i];
            proof {
                assert(self.votes@.take(i as int + 1) =~= self.votes@.take(i as int).push(row));
                self.votes@.take(i as int).lemma_filter_push(row, cast_by(voter));
            }
            if row.user_id == voter {
                own.push(row);
            }
            i += 1;
        }
        assert(self.votes@.take(self.votes.len() as int) =~= self.votes@);
        own
    }

    /// The ballot that `voter` has on file, most preferred item first; empty if
    /// the voter has handed in none.
    pub fn ballot_for(&self, voter: i32) -> (ballot: Vec<i32>)
        ensures
            ballot@ == ballot_of(self.rows(), voter),
    {
        let mut ballot: Vec<i32> = Vec::new();
        let mut i: usize = 0;
        while i < self.votes.len()
            invariant
                i <= self.votes.len(),
                ballot@ == ballot_of(self.votes@.take(i as int), voter),
            decreases self.votes.len() - i,
        {
            let row = self.votes[i];
            proof {
                assert(self.votes@.take(i as int + 1) =~= self.votes@.take(i as int).push(row));
                lemma_ballot_push(self.votes@.take(i as int), row, voter);
            }
            if row.user_id == voter {
                ballot.push(row.item_id);
            }
            i += 1;
        }
        assert(self.votes@.take(self.votes.len() as int) =~= self.votes@);
        ballot
    }

    /// The catalog.
    pub fn items(&self) -> (items: &Vec<Item>)
        ensures
            items@ == self.catalog(),
    {
        &self.items
    }

    /// The registered users.
    pub fn users(&self) -> (users: &Vec<User>)
        ensures
            users@ == self.accounts(),
    {
        &self.users
    }

    /// The ballot entries of all voters.
    pub fn votes(&self) -> (votes: &Vec<Vote>)
        ensures
            votes@ == self.rows(),
    {
        &self.votes
    }

    /// The ballots that count when the items of `excluded` are struck: for each
    /// voter, the open items of the voter's ballot that are not excluded, in the
    /// voter's order. A voter with none of these has no ballot here. The ballots
    /// stand in the order of the voters' ids.
    pub open spec fn eligible_ballots(&self, excluded: Set<i32>) -> Seq<Seq<i32>> {
        ballots_in(self.rows().filter(in_the_running(self.catalog(), excluded)))
    }

    /// The ballots to count, restricted to the open items that `excluded` does
    /// not hold; a voter left with no item is left out.
    pub fn ballots_for_active_items(&self, excluded: &Vec<i32>) -> (ballots: Vec<Vec<i32>>)
        ensures
            rankings(ballots@) == self.eligible_ballots(excluded@.to_set()),
    {
        proof {
            use_type_invariant(self);
        }
        let ghost counts = in_the_running(self.items@, excluded@.to_set());
        let mut kept: Vec<Vote> = Vec::new();
        let mut i: usize = 0;
        while i < self.votes.len()
            invariant
                i <= self.votes.len(),
                counts == in_the_running(self.items@, excluded@.to_set()),
                kept@ == self.votes@.take(i as int).filter(counts),
            decreases self.votes.len() - i,
        {
            let row = self.votes[i];
            proof {
                assert(self.votes@.take(i as int + 1) =~= self.votes@.take(i as int).push(row));
                self.votes@.take(i as int).lemma_filter_push(row, counts);
            }
            if item_is_open(&self.items, row.item_id) && position(excluded, row.item_id).is_none() {
                kept.push(row);
            }
            i += 1;
        }
        proof {
            assert(self.votes@.take(self.votes.len() as int) =~= self.votes@);
            lemma_filter_grouped(self.votes@, counts);
        }
        ballots_of_rows(&kept)
    }

    /// The item with this id, if the catalog holds one.
    pub fn find_item(&self, id: i32) -> (found: Option<&Item>)
        ensures
            match found {
                Some(item) => item_with(self.catalog(), id) == Some(*item),
                None => item_with(self.catalog(), id) is None,
            },
    {
        proof {
            use_type_invariant(self);
        }
        let mut i: usize = 0;
        while i < self.items.len()
            invariant
                i <= self.items.len(),
                distinct_items(self.items@),
                forall|j: int| 0 <= j < i ==> self.items[j].id != id,
            decreases self.items.len() - i,
        {
            if self.items[i].id == id {
                return Some(&self.items[i]);
            }
            i += 1;
        }
        None
    }

    /// Holds a submitted ranking against the catalog: `None` if it can be
    /// stored, else the first thing that is wrong with it.
    pub fn validate_ballot(&self, list: &Vec<i32>) -> (fault: Option<ValidationError>)
        ensures
            fault == first_fault(self.catalog(), list@),
            fault is None ==> list@.no_duplicates() && list.len() <= i32::MAX,
    {
        let mut i: usize = 0;
        while i < list.len()
            invariant
                i <= list.len(),
                first_fault(self.catalog(), list@) == fault_from(self.catalog(), list@, i as int),
                forall|j: int| 0 <= j < i ==> !list@.take(j).contains(#[trigger] list[j]),
            decreases list.len() - i,
        {
            let id: i32 = list[i];
            match self.find_item(id) {
                None => {
                    return Some(ValidationError::UnknownItem(id));
                },
                Some(item) => {
                    if item.done {
                        return Some(ValidationError::ClosedItem(id));
                    }
                },
            }
            let mut k: usize = 0;
            while k < i
                invariant
                    k <= i < list.len(),
                    id == list[i as int],
                    forall|j: int| 0 <= j < k ==> list[j] != id,
                    first_fault(self.catalog(), list@) == fault_from(
                        self.catalog(),
                        list@,
                        i as int,
                    ),
                    item_with(self.catalog(), id) is Some,
                    !item_with(self.catalog(), id)->0.done,
                decreases i - k,
            {
                if list[k] == id {
                    assert(list@.take(i as int)[k as int] == id);
                    return Some(ValidationError::DuplicateItem(id));
                }
                k += 1;
            }
            i += 1;
        }
        proof {
            assert forall|a: int, b: int| 0 <= a < b < list.len() implies list[a] != list[b] by {
                if list[a] == list[b] {
                    assert(list@.take(b)[a] == list[b]);
                }
            }
        }
        if list.len() > i32::MAX as usize {
            return Some(ValidationError::TooLong);
        }
        None
    }

    /// Stores `list` as the ballot of `voter` in place of whatever the voter had
    /// handed in before, entry `i` at ordinal `i`. A list that ranks an unknown or
    /// a closed item, or an item twice, is turned down, and the store stays as it
    /// was.
    pub fn replace_ballot(&mut self, voter: i32, list: &Vec<i32>) -> (saved: Result<
        (),
        ValidationError,
    >)
        ensures
            final(self).catalog() == old(self).catalog(),
            final(self).accounts() == old(self).accounts(),
            final(self).well_formed(),
            match saved {
                Ok(()) => first_fault(old(self).catalog(), list@) is None && final(self).rows()
                    == replaced(old(self).rows(), voter, list@),
                Err(fault) => first_fault(old(self).catalog(), list@) == Some(fault)
                    && final(self).rows() == old(self).rows(),
            },
            saved is Ok ==> ballot_of(final(self).rows(), voter) == list@,
            saved is Ok ==> forall|other: i32|
                other != voter ==> #[trigger] ballot_of(final(self).rows(), other) == ballot_of(
                    old(self).rows(),
                    other,
                ),
    {
        proof {
            use_type_invariant(&*self);
        }
        match self.validate_ballot(list) {
            Some(fault) => {
                return Err(fault);
            },
            None => {},
        }
        let ghost before = self.votes@;
        let mut fresh: Vec<Vote> = Vec::new();
        let mut i: usize = 0;
        while i < self.votes.len()
            invariant
                i <= self.votes.len(),
                before == self.votes@,
                fresh@ == before.take(i as int).filter(sooner(voter)),
            decreases self.votes.len() - i,
        {
            let row = self.votes[i];
            proof {
                assert(before.take(i as int + 1) =~= before.take(i as int).push(row));
                before.take(i as int).lemma_filter_push(row, sooner(voter));
            }
            if row.user_id < voter {
                fresh.push(row);
            }
            i += 1;
        }
        assert(before.take(self.votes.len() as int) =~= before);
        let ghost head = fresh@;
        let mut n: usize = 0;
        while n < list.len()
            invariant
                n <= list.len() <= i32::MAX,
                fresh@ == head + entries(voter, list@).take(n as int),
            decreases list.len() - n,
        {
            fresh.push(Vote { user_id: voter, item_id: list[n], ordinal: n as i32 });
            n += 1;
        }
        assert(entries(voter, list@).take(list.len() as int) =~= entries(voter, list@));
        let ghost middle = fresh@;
        let mut i: usize = 0;
        while i < self.votes.len()
            invariant
                i <= self.votes.len(),
                before == self.votes@,
                fresh@ == middle + before.take(i as int).filter(later(voter)),
            decreases self.votes.len() - i,
        {
            let row = self.votes[i];
            proof {
                assert(before.take(i as int + 1) =~= before.take(i as int).push(row));
                before.take(i as int).lemma_filter_push(row, later(voter));
            }
            if row.user_id > voter {
                fresh.push(row);
            }
            i += 1;
        }
        proof {
            lemma_replaced_in_order(before, voter, list@);
            lemma_replaced_ballots(before, voter, list@, voter);
            assert forall|other: i32| other != voter implies #[trigger] ballot_of(
                replaced(before, voter, list@),
                other,
            ) == ballot_of(before, other) by {
                lemma_replaced_ballots(before, voter, list@, other);
            }
        }
        self.votes = fresh;
        Ok(())
    }

    /// Finds the user with this username, or registers one under the next id.
    /// Gives `None`, and changes nothing, only where a new user is needed and no
    /// id is left.
    pub fn sign_in(&mut self, username: String) -> (user: Option<User>)
        ensures
            final(self).catalog() == old(self).catalog(),
            final(self).rows() == old(self).rows(),
            final(self).well_formed(),
            match account_named(old(self).accounts(), username@) {
                Some(known) => user == Some(known) && final(self).accounts() == old(
                    self,
                ).accounts(),
                None => match user {
                    Some(fresh) => fresh.username == username && fresh.id == next_id(
                        old(self).accounts(),
                    ) && final(self).accounts() == old(self).accounts().push(fresh),
                    None => next_id(old(self).accounts()) > i32::MAX && final(self).accounts()
                        == old(self).accounts(),
                },
            },
    {
        proof {
            use_type_invariant(&*self);
        }
        let mut i: usize = 0;
        let mut next: i64 = 1;
        let mut roll: Vec<User> = Vec::new();
        while i < self.users.len()
            invariant
                i <= self.users.len(),
                *self == *old(self),
                self.well_formed(),
                roll@ == self.users@.take(i as int),
                next == next_id(self.users@.take(i as int)),
                i32::MIN < next <= i32::MAX + 1,
                forall|j: int| 0 <= j < i ==> (#[trigger] self.users[j]).username@ != username@,
            decreases self.users.len() - i,
        {
            if self.users[i].username == username {
                return Some(self.users[i].clone());
            }
            proof {
                assert(self.users@.take(i as int + 1).drop_last() =~= self.users@.take(i as int));
            }
            let above: i64 = self.users[i].id as i64 + 1;
            if i == 0 || above > next {
                next = above;
            }
            roll.push(self.users[i].clone());
            i += 1;
        }
        assert(self.users@.take(self.users.len() as int) =~= self.users@);
        if next > i32::MAX as i64 {
            return None;
        }
        let fresh = User { id: next as i32, username };
        let copy = fresh.clone();
        proof {
            lemma_next_id_unused(self.users@);
        }
        roll.push(fresh);
        self.users = roll;
        Some(copy)
    }
}

} // verus!
