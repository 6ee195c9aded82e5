//! Whether tables that come from outside keep the rules of the relations.

use crate::rows::{
    ballot_of, cast_by, grouped, lemma_ballot_contains, lemma_ballot_of_stranger,
    lemma_ballot_push, lemma_no_rows_in_order, ranked_in_order,
};
use crate::schema::{Item, User, Vote};
use crate::store::{distinct_items, distinct_users};
use vstd::prelude::*;

verus! {

/// The row `row` can follow `rows`: its voter is not before any voter of `rows`,
/// its ordinal is the number of rows that its voter has already, and its item
/// is not one that its voter ranks already.
pub open spec fn fits(rows: Seq<Vote>, row: Vote) -> bool {
    &&& forall|i: int| 0 <= i < rows.len() ==> (#[trigger] rows[i]).user_id <= row.user_id
    &&& row.ordinal == rows.filter(cast_by(row.user_id)).len()
    &&& !ballot_of(rows, row.user_id).contains(row.item_id)
}

/// Rows that are in order stay in order when the last one is taken away.
pub proof fn lemma_in_order_shrinks(rows: Seq<Vote>, row: Vote)
    requires
        grouped(rows.push(row)),
        ranked_in_order(rows.push(row)),
    ensures
        grouped(rows),
        ranked_in_order(rows),
{
    let more = rows.push(row);
    assert forall|i: int, j: int| 0 <= i < j < rows.len() implies rows[i].user_id
        <= rows[j].user_id by {
        assert(more[i].user_id <= more[j].user_id);
    }
    assert forall|voter: i32, place: int|
        0 <= place < rows.filter(cast_by(voter)).len() implies (#[trigger] rows.filter(
        cast_by(voter),
    )[place]).ordinal == place by {
        rows.lemma_filter_push(row, cast_by(voter));
        assert(more.filter(cast_by(voter))[place].ordinal == place);
    }
    assert forall|voter: i32| #[trigger] ballot_of(rows, voter).no_duplicates() by {
        lemma_ballot_push(rows, row, voter);
        let longer = ballot_of(more, voter);
        assert(longer.no_duplicates());
        let shorter = ballot_of(rows, voter);
        assert forall|a: int, b: int| 0 <= a < b < shorter.len() implies shorter[a]
            != shorter[b] by {
            assert(longer[a] == shorter[a]);
            assert(longer[b] == shorter[b]);
        }
    }
}

/// Rows in order stay in order under one more row exactly if the row fits.
pub proof fn lemma_in_order_grows(rows: Seq<Vote>, row: Vote)
    requires
        grouped(rows),
        ranked_in_order(rows),
    ensures
        fits(rows, row) <==> grouped(rows.push(row)) && ranked_in_order(rows.push(row)),
{
    let more = rows.push(row);
    let own = rows.filter(cast_by(row.user_id));
    rows.lemma_filter_push(row, cast_by(row.user_id));
    lemma_ballot_push(rows, row, row.user_id);
    if fits(rows, row) {
        assert forall|voter: i32, place: int|
            0 <= place < more.filter(cast_by(voter)).len() implies (#[trigger] more.filter(
            cast_by(voter),
        )[place]).ordinal == place by {
            rows.lemma_filter_push(row, cast_by(voter));
            if place < rows.filter(cast_by(voter)).len() {
                assert(rows.filter(cast_by(voter))[place].ordinal == place);
            }
        }
        assert forall|voter: i32| #[trigger] ballot_of(more, voter).no_duplicates() by {
            lemma_ballot_push(rows, row, voter);
            assert(ballot_of(rows, voter).no_duplicates());
            if voter == row.user_id {
                let shorter = ballot_of(rows, voter);
                let longer = ballot_of(more, voter);
                assert forall|a: int, b: int| 0 <= a < b < longer.len() implies longer[a]
                    != longer[b] by {
                    if b == shorter.len() {
                        assert(shorter.contains(shorter[a]));
                    }
                }
            }
        }
    }
    if grouped(more) && ranked_in_order(more) {
        assert forall|i: int| 0 <= i < rows.len() implies (#[trigger] rows[i]).user_id
            <= row.user_id by {
            assert(more[i].user_id <= more[rows.len() as int].user_id);
        }
        assert(more.filter(cast_by(row.user_id))[own.len() as int].ordinal == own.len());
        let longer = ballot_of(more, row.user_id);
        assert(longer.no_duplicates());
        let shorter = ballot_of(rows, row.user_id);
        if shorter.contains(row.item_id) {
            let a = choose|a: int| 0 <= a < shorter.len() && shorter[a] == row.item_id;
            assert(longer[a] == longer[shorter.len() as int]);
        }
    }
}

/// Rows that are in order are in order up to any point.
pub proof fn lemma_in_order_prefix(rows: Seq<Vote>, upto: int)
    requires
        grouped(rows),
        ranked_in_order(rows),
        0 <= upto <= rows.len(),
    ensures
        grouped(rows.take(upto)),
        ranked_in_order(rows.take(upto)),
    decreases rows.len() - upto,
{
    if upto == rows.len() {
        assert(rows.take(upto) =~= rows);
    } else {
        lemma_in_order_prefix(rows, upto + 1);
        assert(rows.take(upto + 1) =~= rows.take(upto).push(rows[upto]));
        lemma_in_order_shrinks(rows.take(upto), rows[upto]);
    }
}

/// Whether the ballot entries stand voter by voter, each voter's rows numbered
/// from 0 in their order and no item ranked twice by one voter.
#[verifier::loop_isolation(false)]
pub fn votes_in_order(votes: &Vec<Vote>) -> (ok: bool)
    ensures
        ok == (grouped(votes@) && ranked_in_order(votes@)),
{
    let mut i: usize = 0;
    let mut run: usize = 0;
    proof {
        assert(votes@.take(0) =~= Seq::<Vote>::empty());
        lemma_no_rows_in_order();
    }
    while i < votes.len()
        invariant
            i <= votes.len(),
            grouped(votes@.take(i as int)),
            ranked_in_order(votes@.take(i as int)),
            i > 0 ==> run == votes@.take(i as int).filter(cast_by(votes[i - 1].user_id)).len(),
            run <= i,
        decreases votes.len() - i,
    {
        let row = votes[i];
        let ghost seen = votes@.take(i as int);
        proof {
            assert(votes@.take(i as int + 1) =~= seen.push(row));
            lemma_in_order_grows(seen, row);
            if grouped(votes@) && ranked_in_order(votes@) {
                lemma_in_order_prefix(votes@, i as int + 1);
            }
        }
        if i > 0 && votes[i - 1].user_id > row.user_id {
            return false;
        }
        assert forall|k: int| 0 <= k < seen.len() implies (#[trigger] seen[k]).user_id
            <= row.user_id by {}
        let expected: usize = if i > 0 && votes[i - 1].user_id == row.user_id {
            run
        } else {
            proof {
                lemma_ballot_of_stranger(seen, row.user_id);
            }
            0
        };
        if row.ordinal < 0 || row.ordinal as usize != expected {
            return false;
        }
        let mut j: usize = i;
        while j > 0 && votes[j - 1].user_id == row.user_id
            invariant
                j <= i < votes.len(),
                forall|k: int|
                    j <= k < i ==> (#[trigger] votes[k]).user_id == row.user_id && votes[k].item_id
                        != row.item_id,
            decreases j,
        {
            if votes[j - 1].item_id == row.item_id {
                proof {
                    lemma_ballot_contains(seen, row.user_id, row.item_id);
                    assert(seen[j - 1].user_id == row.user_id && seen[j - 1].item_id
                        == row.item_id);
                }
                return false;
            }
            j -= 1;
        }
        proof {
            lemma_ballot_contains(seen, row.user_id, row.item_id);
            seen.lemma_filter_push(row, cast_by(row.user_id));
        }
        run = expected + 1;
        i += 1;
    }
    assert(votes@.take(votes.len() as int) =~= votes@);
    true
}

/// Whether no two items share an id.
pub fn items_distinct(items: &Vec<Item>) -> (ok: bool)
    ensures
        ok == distinct_items(items@),
{
    let mut j: usize = 0;
    while j < items.len()
        invariant
            j <= items.len(),
            forall|a: int, b: int| 0 <= a < b < j ==> items[a].id != items[b].id,
        decreases items.len() - j,
    {
        let mut i: usize = 0;
        while i < j
            invariant
                i <= j < items.len(),
                forall|a: int| 0 <= a < i ==> items[a].id != items[j as int].id,
            decreases j - i,
        {
            if items[i].id == items[j].id {
                return false;
            }
            i += 1;
        }
        j += 1;
    }
    true
}

/// Whether no two users share an id or a username.
pub fn users_distinct(users: &Vec<User>) -> (ok: bool)
    ensures
        ok == distinct_users(users@),
{
    let mut j: usize = 0;
    while j < users.len()
        invariant
            j <= users.len(),
            forall|a: int, b: int|
                0 <= a < b < j ==> users[a].id != users[b].id && users[a].username@
                    != users[b].username@,
        decreases users.len() - j,
    {
        let mut i: usize = 0;
        while i < j
            invariant
                i <= j < users.len(),
                forall|a: int|
                    0 <= a < i ==> users[a].id != users[j as int].id && users[a].username@
                        != users[j as int].username@,
            decreases j - i,
        {
            if users[i].id == users[j].id || users[i].username == users[j].username {
                return false;
            }
            i += 1;
        }
        j += 1;
    }
    true
}

} // verus!
