//! The two-stage election: the winner, then the runner-up among the rest.

use crate::chunks::{lemma_ballots_not_blank, lemma_named_in_rows};
use crate::engine::run_election;
use crate::laws::{law_outcome_in_running, lemma_candidates_named};
use crate::listing::listing;
use crate::replace::{first_fault, replaced, ValidationError};
use crate::rows::ballot_of;
use crate::schema::{Ballot, Item, NewUser, User, Vote};
use crate::store::{account_named, in_the_running, is_open, item_with, next_id, Store};
use crate::tally::{candidates, pick, tally};
use vstd::pervasive::unreached;
use vstd::prelude::*;

verus! {

impl Store {
    /// The item that an election over the ballots elects when the items of
    /// `excluded` are struck from them: the winner of the count, or of a tie the
    /// item with the smallest id; `None` if no ballot is left to count.
    pub open spec fn elected(&self, excluded: Set<i32>) -> Option<Item> {
        match pick(tally(self.eligible_ballots(excluded))) {
            Some(id) => item_with(self.catalog(), id),
            None => None,
        }
    }

    /// The runner-up: the item elected once the winner is struck from every
    /// ballot. Without a winner there is none.
    pub open spec fn runner_up(&self) -> Option<Item> {
        match self.elected(Set::empty()) {
            Some(first) => self.elected(set![first.id]),
            None => None,
        }
    }
}

/// The candidate that an election over the store's ballots settles on is an
/// open item of the catalog and none of the excluded ones.
pub proof fn law_elected_is_eligible(store: Store, excluded: Set<i32>)
    requires
        store.well_formed(),
    ensures
        match pick(tally(store.eligible_ballots(excluded))) {
            Some(id) => {
                &&& is_open(store.catalog(), id)
                &&& !excluded.contains(id)
                &&& store.elected(excluded) is Some
                &&& store.elected(excluded)->0.id == id
                &&& !store.elected(excluded)->0.done
                &&& store.eligible_ballots(excluded).len() > 0
            },
            None => store.elected(excluded) is None && store.eligible_ballots(excluded).len() == 0,
        },
{
    let counts = in_the_running(store.catalog(), excluded);
    let rows = store.rows().filter(counts);
    let ballots = store.eligible_ballots(excluded);
    law_outcome_in_running(ballots, candidates(ballots));
    match pick(tally(ballots)) {
        Some(id) => {
            lemma_named_in_rows(rows, id);
        },
        None => {
            if ballots.len() > 0 {
                lemma_ballots_not_blank(rows, 0);
                assert(ballots[0].contains(ballots[0][0]));
                lemma_candidates_named(ballots, ballots[0][0]);
            }
        },
    }
}

impl Vote {
    /// Runs the election over the ballots as they stand: every voter's ranking of
    /// the open items. Gives the winning item; of a tie, the item with the
    /// smallest id; `None` if no ballot ranks an open item.
    pub fn run_election(store: &Store) -> (winner: Option<Item>)
        ensures
            winner == store.elected(Set::empty()),
            winner is None <==> store.eligible_ballots(Set::empty()).len() == 0,
            winner matches Some(first) ==> !first.done,
    {
        let none: Vec<i32> = Vec::new();
        assert(none@.to_set() =~= Set::<i32>::empty());
        elect(store, &none)
    }

    /// Runs the election again for the runner-up: over the same ballots with the
    /// winner's item struck from each. Without a winner there is no runner-up.
    pub fn run_second_election(store: &Store, winner: &Option<Item>) -> (second: Option<Item>)
        ensures
            second == match *winner {
                Some(first) => store.elected(set![first.id]),
                None => None,
            },
            second matches Some(other) ==> !other.done && winner is Some && other.id
                != winner->0.id,
    {
        match winner {
            Some(first) => {
                let mut struck: Vec<i32> = Vec::new();
                struck.push(first.id);
                assert(struck@.to_set() =~= set![first.id]) by {
                    assert(struck@[0] == first.id);
                }
                elect(store, &struck)
            },
            None => None,
        }
    }

    /// Stores `ballot` as the ballot of the voter `uid`, in place of what the voter
    /// had handed in before. A ballot that ranks an unknown or a closed item, or
    /// an item twice, is turned down and changes nothing.
    pub fn save_ballot(uid: i32, ballot: Ballot, store: &mut Store) -> (saved: Result<
        (),
        ValidationError,
    >)
        ensures
            final(store).well_formed(),
            final(store).catalog() == old(store).catalog(),
            final(store).accounts() == old(store).accounts(),
            match saved {
                Ok(()) => first_fault(old(store).catalog(), ballot.votes@) is None
                    && final(store).rows() == replaced(old(store).rows(), uid, ballot.votes@),
                Err(fault) => first_fault(old(store).catalog(), ballot.votes@) == Some(fault)
                    && final(store).rows() == old(store).rows(),
            },
            saved is Ok ==> ballot_of(final(store).rows(), uid) == ballot.votes@,
            saved is Ok ==> forall|other: i32|
                other != uid ==> #[trigger] ballot_of(final(store).rows(), other) == ballot_of(
                    old(store).rows(),
                    other,
                ),
    {
        store.replace_ballot(uid, &ballot.votes)
    }
}

impl NewUser {
    /// The user of this name: the one that the store knows, or a new one,
    /// registered under the next id. `None`, with nothing changed, only where a
    /// new user is needed and no id is left.
    pub fn login(self, store: &mut Store) -> (user: Option<User>)
        ensures
            final(store).well_formed(),
            final(store).catalog() == old(store).catalog(),
            final(store).rows() == old(store).rows(),
            match account_named(old(store).accounts(), self.username@) {
                Some(known) => user == Some(known) && final(store).accounts() == old(
                    store,
                ).accounts(),
                None => match user {
                    Some(fresh) => fresh.username == self.username && fresh.id == next_id(
                        old(store).accounts(),
                    ) && final(store).accounts() == old(store).accounts().push(fresh),
                    None => next_id(old(store).accounts()) > i32::MAX && final(store).accounts()
                        == old(store).accounts(),
                },
            },
    {
        store.sign_in(self.username)
    }
}

/// What a results page shows.
#[derive(Debug, PartialEq, Eq)]
pub struct Context {
    /// The elected item.
    pub winner: Option<Item>,
    /// The runner-up.
    pub second: Option<Item>,
    /// The open items with the voter's own ranking; empty where no voter asks.
    pub items: Vec<(Item, Option<i32>)>,
}

impl Context {
    /// The results for a visitor who is no voter: winner and runner-up.
    pub fn new(store: &Store) -> (page: Context)
        ensures
            page.winner == store.elected(Set::empty()),
            page.second == store.runner_up(),
            page.items@ == Seq::<(Item, Option<i32>)>::empty(),
    {
        let winner = Vote::run_election(store);
        let second = Vote::run_second_election(store, &winner);
        Context { winner, second, items: Vec::new() }
    }

    /// The results for the voter `uid`: winner, runner-up, and the open items with
    /// the voter's own ranking.
    pub fn for_user(uid: i32, store: &Store) -> (page: Context)
        ensures
            page.winner == store.elected(Set::empty()),
            page.second == store.runner_up(),
            page.items@ == listing(store.catalog(), store.rows(), uid),
    {
        let winner = Vote::run_election(store);
        let second = Vote::run_second_election(store, &winner);
        Context { winner, second, items: Item::for_user(uid, store) }
    }
}

/// Counts the ballots without the items of `excluded` and looks the elected
/// item up in the catalog. The count names only items that the catalog holds,
/// so the look-up cannot miss.
fn elect(store: &Store, excluded: &Vec<i32>) -> (chosen: Option<Item>)
    ensures
        chosen == store.elected(excluded@.to_set()),
        chosen is None <==> store.eligible_ballots(excluded@.to_set()).len() == 0,
        chosen matches Some(item) ==> !item.done && !excluded@.contains(item.id),
{
    proof {
        use_type_invariant(store);
        law_elected_is_eligible(*store, excluded@.to_set());
    }
    let ballots = store.ballots_for_active_items(excluded);
    let result = run_election(&ballots);
    match result.resolve() {
        Some(id) => match store.find_item(id) {
            Some(item) => Some(item.clone()),
            None => unreached(),
        },
        None => None,
    }
}

} // verus!
