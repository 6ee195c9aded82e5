//! How the ballots that are counted follow from the ballots on file: what
//! closing or striking an item does to them, and what a voter without a ballot
//! does not do.

use crate::chunks::{ballots_in, electorate, lemma_candidates_are_items, lemma_electorate_owns};
use crate::election::law_elected_is_eligible;
use crate::replace::{later, replaced, sooner};
use crate::rows::{ballot_of, grouped, lemma_ballot_contains, lemma_ballot_push, lemma_filter_none};
use crate::schema::{Item, Vote};
use crate::store::{in_the_running, is_open, item_with, Store};
use crate::tally::{candidates, pick, tally};
use vstd::prelude::*;

verus! {

/// The ids other than `id`.
pub open spec fn other_than(id: i32) -> spec_fn(i32) -> bool {
    |x: i32| x != id
}

/// The ids of the open items that are not excluded.
pub open spec fn standing(items: Seq<Item>, excluded: Set<i32>) -> spec_fn(i32) -> bool {
    |id: i32| is_open(items, id) && !excluded.contains(id)
}

/// The ballot that is counted for a voter is the voter's ballot on file without
/// the items that are closed, unknown or excluded, the rest in the voter's order.
pub proof fn law_counted_ballot_is_restriction(
    items: Seq<Item>,
    rows: Seq<Vote>,
    excluded: Set<i32>,
    voter: i32,
)
    ensures
        ballot_of(rows.filter(in_the_running(items, excluded)), voter) == ballot_of(
            rows,
            voter,
        ).filter(standing(items, excluded)),
    decreases rows.len(),
{
    let counts = in_the_running(items, excluded);
    let stands = standing(items, excluded);
    if rows.len() > 0 {
        let head = rows.drop_last();
        let row = rows.last();
        law_counted_ballot_is_restriction(items, head, excluded, voter);
        assert(rows =~= head.push(row));
        head.lemma_filter_push(row, counts);
        lemma_ballot_push(head, row, voter);
        if row.user_id == voter {
            ballot_of(head, voter).lemma_filter_push(row.item_id, stands);
        }
        if counts(row) {
            lemma_ballot_push(head.filter(counts), row, voter);
        }
    }
}

/// A voter has a ballot in the count exactly if the voter's ballot on file ranks
/// an open item that is not excluded.
pub proof fn law_counted_voters(items: Seq<Item>, rows: Seq<Vote>, excluded: Set<i32>, voter: i32)
    ensures
        electorate(rows.filter(in_the_running(items, excluded))).contains(voter) <==> ballot_of(
            rows,
            voter,
        ).filter(standing(items, excluded)).len() > 0,
{
    let counted = rows.filter(in_the_running(items, excluded));
    law_counted_ballot_is_restriction(items, rows, excluded, voter);
    lemma_electorate_owns(counted, voter);
    let own = ballot_of(counted, voter);
    if electorate(counted).contains(voter) {
        let at = choose|at: int|
            0 <= at < counted.len() && (#[trigger] counted[at]).user_id == voter;
        lemma_ballot_contains(counted, voter, counted[at].item_id);
    }
    if own.len() > 0 {
        lemma_ballot_contains(counted, voter, own[0]);
    }
}

/// Striking one more item from the ballots strikes it from each voter's
/// ballot and leaves the rest of the ballot as it was, in its order.
pub proof fn law_struck_from_each_ballot(
    items: Seq<Item>,
    rows: Seq<Vote>,
    excluded: Set<i32>,
    struck: i32,
    voter: i32,
)
    ensures
        ballot_of(rows.filter(in_the_running(items, excluded.insert(struck))), voter) == ballot_of(
            rows.filter(in_the_running(items, excluded)),
            voter,
        ).filter(other_than(struck)),
    decreases rows.len(),
{
    let wide = in_the_running(items, excluded);
    let narrow = in_the_running(items, excluded.insert(struck));
    if rows.len() > 0 {
        let head = rows.drop_last();
        let row = rows.last();
        law_struck_from_each_ballot(items, head, excluded, struck, voter);
        assert(rows =~= head.push(row));
        head.lemma_filter_push(row, wide);
        head.lemma_filter_push(row, narrow);
        if wide(row) {
            lemma_ballot_push(head.filter(wide), row, voter);
            ballot_of(head.filter(wide), voter).lemma_filter_push(
                row.item_id,
                other_than(struck),
            );
            if narrow(row) {
                lemma_ballot_push(head.filter(narrow), row, voter);
            }
        }
    }
}

/// Striking one more item from the ballots takes it from the candidates and
/// leaves every other candidate.
pub proof fn law_struck_from_candidates(
    items: Seq<Item>,
    rows: Seq<Vote>,
    excluded: Set<i32>,
    struck: i32,
)
    ensures
        candidates(ballots_in(rows.filter(in_the_running(items, excluded.insert(struck)))))
            == candidates(ballots_in(rows.filter(in_the_running(items, excluded)))).remove(struck),
{
    let wide = in_the_running(items, excluded);
    let narrow = in_the_running(items, excluded.insert(struck));
    let most = rows.filter(wide);
    let fewer = rows.filter(narrow);
    assert forall|id: i32|
        candidates(ballots_in(fewer)).contains(id) == candidates(ballots_in(most)).remove(
            struck,
        ).contains(id) by {
        lemma_candidates_are_items(fewer, id);
        lemma_candidates_are_items(most, id);
        if candidates(ballots_in(fewer)).contains(id) {
            let at = choose|at: int| 0 <= at < fewer.len() && (#[trigger] fewer[at]).item_id == id;
            rows.lemma_filter_contains_rev(narrow, fewer[at]);
            let i = choose|i: int| 0 <= i < rows.len() && rows[i] == fewer[at];
            rows.lemma_filter_contains(wide, i);
        }
        if candidates(ballots_in(most)).remove(struck).contains(id) {
            let at = choose|at: int| 0 <= at < most.len() && (#[trigger] most[at]).item_id == id;
            rows.lemma_filter_contains_rev(wide, most[at]);
            let i = choose|i: int| 0 <= i < rows.len() && rows[i] == most[at];
            rows.lemma_filter_contains(narrow, i);
        }
    }
}

/// The runner-up is elected by a count of its own, over the ballots without
/// the winner: the winner is no candidate of that count, every other candidate
/// of the first count is, and the runner-up is an open item other than the
/// winner. There is no runner-up only where no ballot ranks another open item.
pub proof fn law_runner_up_is_another(store: Store)
    requires
        store.well_formed(),
    ensures
        match store.elected(Set::empty()) {
            Some(first) => {
                &&& candidates(store.eligible_ballots(set![first.id])) == candidates(
                    store.eligible_ballots(Set::empty()),
                ).remove(first.id)
                &&& store.runner_up() == match pick(tally(store.eligible_ballots(set![first.id]))) {
                    Some(id) => item_with(store.catalog(), id),
                    None => None,
                }
                &&& match store.runner_up() {
                    Some(second) => second.id != first.id && !second.done,
                    None => store.eligible_ballots(set![first.id]).len() == 0,
                }
            },
            None => store.runner_up() is None,
        },
{
    match store.elected(Set::empty()) {
        Some(first) => {
            law_struck_from_candidates(store.catalog(), store.rows(), Set::empty(), first.id);
            law_elected_is_eligible(store, set![first.id]);
        },
        None => {},
    }
}

/// A voter who has handed in no ballot has none among the ballots that are
/// counted, whatever rows are left out of the count.
pub proof fn law_abstainer_casts_nothing(rows: Seq<Vote>, kept: spec_fn(Vote) -> bool, voter: i32)
    requires
        ballot_of(rows, voter).len() == 0,
    ensures
        !electorate(rows.filter(kept)).contains(voter),
{
    let counted = rows.filter(kept);
    lemma_electorate_owns(counted, voter);
    if electorate(counted).contains(voter) {
        let at = choose|at: int|
            0 <= at < counted.len() && (#[trigger] counted[at]).user_id == voter;
        rows.lemma_filter_contains_rev(kept, counted[at]);
        lemma_ballot_contains(rows, voter, counted[at].item_id);
    }
}

/// For a voter without a ballot, handing in an empty one changes nothing.
pub proof fn law_blank_ballot_round_trip(rows: Seq<Vote>, voter: i32)
    requires
        grouped(rows),
        ballot_of(rows, voter).len() == 0,
    ensures
        replaced(rows, voter, Seq::empty()) == rows,
{
    assert forall|i: int| 0 <= i < rows.len() implies (#[trigger] rows[i]).user_id != voter by {
        lemma_ballot_contains(rows, voter, rows[i].item_id);
    }
    lemma_split_at_stranger(rows, voter);
}

/// Rows that stand voter by voter fall into those before and those after a
/// voter who owns none of them.
proof fn lemma_split_at_stranger(rows: Seq<Vote>, voter: i32) -> (cut: int)
    requires
        grouped(rows),
        forall|i: int| 0 <= i < rows.len() ==> (#[trigger] rows[i]).user_id != voter,
    ensures
        0 <= cut <= rows.len(),
        rows.filter(sooner(voter)) == rows.take(cut),
        rows.filter(later(voter)) == rows.skip(cut),
    decreases rows.len(),
{
    if rows.len() == 0 {
        0
    } else {
        let head = rows.drop_last();
        let row = rows.last();
        assert(rows =~= head.push(row));
        let at = lemma_split_at_stranger(head, voter);
        head.lemma_filter_push(row, sooner(voter));
        head.lemma_filter_push(row, later(voter));
        if row.user_id < voter {
            lemma_filter_none(head, later(voter));
            assert(head.skip(at).len() == 0);
            at + 1
        } else {
            at
        }
    }
}

} // verus!
