//! Cutting the ballot entries into one ranking per voter.

use crate::engine::rankings;
use crate::laws::lemma_candidates_named;
use crate::rows::{
    ballot_of, cast_by, grouped, lemma_ballot_contains, lemma_ballot_of_stranger,
    lemma_ballot_push,
};
use crate::schema::Vote;
use crate::tally::{
    ascending, candidates, is_ascending, lemma_ascending_exists, lemma_ascending_of,
};
use itertools::Itertools;
use vstd::prelude::*;

verus! {

/// The items of `rows`, cut wherever the voter changes from one row to the next.
pub open spec fn runs(rows: Seq<Vote>) -> Seq<Seq<i32>>
    decreases rows.len(),
{
    if rows.len() == 0 {
        Seq::empty()
    } else {
        let head = rows.drop_last();
        let item = rows.last().item_id;
        if head.len() > 0 && head.last().user_id == rows.last().user_id {
            runs(head).drop_last().push(runs(head).last().push(item))
        } else {
            runs(head).push(seq![item])
        }
    }
}

/// The voters that own a row of `rows`, in ascending order.
pub open spec fn electorate(rows: Seq<Vote>) -> Seq<i32> {
    ascending(rows.map_values(|v: Vote| v.user_id).to_set())
}

/// The ballots that `rows` hold, one for each voter that owns a row, in the
/// order of the voters' ids.
pub open spec fn ballots_in(rows: Seq<Vote>) -> Seq<Seq<i32>> {
    electorate(rows).map_values(|voter: i32| ballot_of(rows, voter))
}

/// Calls `Itertools::chunk_by` of the itertools crate on the rows, keyed by
/// voter, and collects the item ids of each chunk. The crate puts consecutive
/// elements that map to the same key into the same chunk, a new key starts a
/// new chunk, and the chunks come in the order of the elements.
#[verifier::external_body]
fn chunk_by_voter(rows: &Vec<Vote>) -> (chunks: Vec<Vec<i32>>)
    ensures
        rankings(chunks@) == runs(rows@),
{
    let chunks = rows.iter().chunk_by(|v| v.user_id);
    chunks.into_iter().map(|(_, chunk)| chunk.map(|v| v.item_id).collect()).collect()
}

/// The voter of each run of `rows`.
spec fn run_keys(rows: Seq<Vote>) -> Seq<i32>
    decreases rows.len(),
{
    if rows.len() == 0 {
        Seq::empty()
    } else {
        let head = rows.drop_last();
        if head.len() > 0 && head.last().user_id == rows.last().user_id {
            run_keys(head)
        } else {
            run_keys(head).push(rows.last().user_id)
        }
    }
}

/// In rows that stand voter by voter, the runs are the voters' ballots.
proof fn lemma_runs_are_ballots(rows: Seq<Vote>)
    requires
        grouped(rows),
    ensures
        is_ascending(run_keys(rows)),
        run_keys(rows).to_set() == rows.map_values(|v: Vote| v.user_id).to_set(),
        runs(rows).len() == run_keys(rows).len(),
        rows.len() > 0 ==> run_keys(rows).len() > 0 && run_keys(rows).last()
            == rows.last().user_id,
        forall|k: int|
            0 <= k < run_keys(rows).len() ==> #[trigger] runs(rows)[k] == ballot_of(
                rows,
                run_keys(rows)[k],
            ),
    decreases rows.len(),
{
    let voters = rows.map_values(|v: Vote| v.user_id);
    if rows.len() > 0 {
        let head = rows.drop_last();
        let row = rows.last();
        let keys = run_keys(head);
        lemma_runs_are_ballots(head);
        assert(rows =~= head.push(row));
        let head_voters = head.map_values(|v: Vote| v.user_id);
        assert(voters =~= head_voters.push(row.user_id));
        head_voters.lemma_push_to_set_commute(row.user_id);
        if head.len() > 0 && head.last().user_id == row.user_id {
            assert forall|k: int| 0 <= k < keys.len() implies #[trigger] runs(rows)[k]
                == ballot_of(rows, keys[k]) by {
                lemma_ballot_push(head, row, keys[k]);
            }
        } else {
            lemma_ballot_of_stranger(head, row.user_id);
            lemma_ballot_push(head, row, row.user_id);
            let new_keys = keys.push(row.user_id);
            keys.lemma_push_to_set_commute(row.user_id);
            assert forall|k: int| 0 <= k < new_keys.len() implies #[trigger] runs(rows)[k]
                == ballot_of(rows, new_keys[k]) by {
                if k < keys.len() {
                    lemma_ballot_push(head, row, keys[k]);
                }
            }
        }
    }
}

/// In rows that stand voter by voter, cutting where the voter changes gives
/// each voter's ballot, the voters in ascending order.
pub proof fn lemma_runs_by_voter(rows: Seq<Vote>)
    requires
        grouped(rows),
    ensures
        runs(rows) == ballots_in(rows),
{
    lemma_runs_are_ballots(rows);
    lemma_ascending_of(run_keys(rows));
}

/// The ballots that the rows hold, one ranking for each voter that owns a row,
/// in the order of the voters' ids.
pub(crate) fn ballots_of_rows(rows: &Vec<Vote>) -> (ballots: Vec<Vec<i32>>)
    requires
        grouped(rows@),
    ensures
        rankings(ballots@) == ballots_in(rows@),
{
    proof {
        lemma_runs_by_voter(rows@);
    }
    chunk_by_voter(rows)
}

/// The voters of the ballots are those that own a row.
pub proof fn lemma_electorate_owns(rows: Seq<Vote>, voter: i32)
    ensures
        electorate(rows).contains(voter) <==> exists|at: int|
            0 <= at < rows.len() && (#[trigger] rows[at]).user_id == voter,
{
    let voters = rows.map_values(|v: Vote| v.user_id);
    let listed = lemma_ascending_exists(voters.to_set());
    if electorate(rows).contains(voter) {
        assert(listed.to_set().contains(voter));
    }
    if exists|at: int| 0 <= at < rows.len() && (#[trigger] rows[at]).user_id == voter {
        let at = choose|at: int| 0 <= at < rows.len() && (#[trigger] rows[at]).user_id == voter;
        assert(voters[at] == voter);
        assert(voters.to_set().contains(voter));
    }
}

/// The candidates of the ballots are the items of the rows.
pub proof fn lemma_candidates_are_items(rows: Seq<Vote>, id: i32)
    ensures
        candidates(ballots_in(rows)).contains(id) <==> exists|at: int|
            0 <= at < rows.len() && (#[trigger] rows[at]).item_id == id,
{
    if candidates(ballots_in(rows)).contains(id) {
        lemma_named_in_rows(rows, id);
    }
    if exists|at: int| 0 <= at < rows.len() && (#[trigger] rows[at]).item_id == id {
        let at = choose|at: int| 0 <= at < rows.len() && (#[trigger] rows[at]).item_id == id;
        let voter = rows[at].user_id;
        lemma_electorate_owns(rows, voter);
        let k = choose|k: int| 0 <= k < electorate(rows).len() && electorate(rows)[k] == voter;
        lemma_ballot_contains(rows, voter, id);
        assert(ballots_in(rows)[k].contains(id));
        lemma_candidates_named(ballots_in(rows), id);
    }
}

/// Whatever the ballots of `rows` name is the item of one of the rows.
pub proof fn lemma_named_in_rows(rows: Seq<Vote>, id: i32)
    requires
        candidates(ballots_in(rows)).contains(id),
    ensures
        exists|at: int| 0 <= at < rows.len() && (#[trigger] rows[at]).item_id == id,
{
    let ballots = ballots_in(rows);
    lemma_candidates_named(ballots, id);
    let k = choose|k: int| 0 <= k < ballots.len() && #[trigger] ballots[k].contains(id);
    let voter = electorate(rows)[k];
    let own = rows.filter(cast_by(voter));
    let m = choose|m: int| 0 <= m < ballots[k].len() && ballots[k][m] == id;
    rows.lemma_filter_contains_rev(cast_by(voter), own[m]);
}

/// Each ballot of `ballots_in` ranks at least one item.
pub proof fn lemma_ballots_not_blank(rows: Seq<Vote>, k: int)
    requires
        0 <= k < ballots_in(rows).len(),
    ensures
        ballots_in(rows)[k].len() > 0,
{
    let voters = rows.map_values(|v: Vote| v.user_id);
    let listed = lemma_ascending_exists(voters.to_set());
    let voter = listed[k];
    assert(voters.to_set().contains(voter));
    let at = choose|at: int| 0 <= at < voters.len() && voters[at] == voter;
    rows.lemma_filter_contains(cast_by(voter), at);
}

} // verus!
