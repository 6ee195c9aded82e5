//! Ballot entries as a sequence of rows: whose they are, the ballot that they
//! make up for a voter, and the order in which they are kept.

use crate::schema::Vote;
use vstd::prelude::*;

verus! {

/// The rows that `voter` owns.
pub open spec fn cast_by(voter: i32) -> spec_fn(Vote) -> bool {
    |v: Vote| v.user_id == voter
}

/// The ballot that `rows` hold for `voter`: the items of the voter's rows, in the
/// order of the rows.
pub open spec fn ballot_of(rows: Seq<Vote>, voter: i32) -> Seq<i32> {
    rows.filter(cast_by(voter)).map_values(|v: Vote| v.item_id)
}

/// The rows stand voter by voter, the voters in ascending order.
pub open spec fn grouped(rows: Seq<Vote>) -> bool {
    forall|i: int, j: int| 0 <= i < j < rows.len() ==> rows[i].user_id <= rows[j].user_id
}

/// Every voter's rows carry the ordinals 0, 1, 2, ... in the order in which they
/// stand, and no voter ranks an item twice.
pub open spec fn ranked_in_order(rows: Seq<Vote>) -> bool {
    &&& forall|voter: i32, place: int|
        0 <= place < rows.filter(cast_by(voter)).len() ==> (#[trigger] rows.filter(
            cast_by(voter),
        )[place]).ordinal == place
    &&& forall|voter: i32| #[trigger] ballot_of(rows, voter).no_duplicates()
}

/// The empty relation of ballot entries keeps the rules.
pub proof fn lemma_no_rows_in_order()
    ensures
        grouped(Seq::<Vote>::empty()),
        ranked_in_order(Seq::<Vote>::empty()),
{
}

/// Rows that stand voter by voter still do when some are left out.
pub proof fn lemma_filter_grouped(rows: Seq<Vote>, kept: spec_fn(Vote) -> bool)
    requires
        grouped(rows),
    ensures
        grouped(rows.filter(kept)),
    decreases rows.len(),
{
    if rows.len() > 0 {
        let head = rows.drop_last();
        let row = rows.last();
        lemma_filter_grouped(head, kept);
        assert(rows =~= head.push(row));
        head.lemma_filter_push(row, kept);
        let sieved = head.filter(kept);
        assert forall|i: int| 0 <= i < sieved.len() implies sieved[i].user_id <= row.user_id by {
            head.lemma_filter_contains_rev(kept, sieved[i]);
        }
    }
}

/// Adding a row adds its item to its voter's ballot and to no other.
pub proof fn lemma_ballot_push(rows: Seq<Vote>, row: Vote, voter: i32)
    ensures
        ballot_of(rows.push(row), voter) == if row.user_id == voter {
            ballot_of(rows, voter).push(row.item_id)
        } else {
            ballot_of(rows, voter)
        },
{
    rows.lemma_filter_push(row, cast_by(voter));
}

/// A voter that owns no row has an empty ballot.
pub proof fn lemma_ballot_of_stranger(rows: Seq<Vote>, voter: i32)
    requires
        forall|i: int| 0 <= i < rows.len() ==> rows[i].user_id != voter,
    ensures
        rows.filter(cast_by(voter)).len() == 0,
        ballot_of(rows, voter) == Seq::<i32>::empty(),
    decreases rows.len(),
{
    if rows.len() > 0 {
        let head = rows.drop_last();
        lemma_ballot_of_stranger(head, voter);
        assert(rows =~= head.push(rows.last()));
        head.lemma_filter_push(rows.last(), cast_by(voter));
    }
}

/// A voter's ballot holds an item exactly if one of the voter's rows is for it.
pub proof fn lemma_ballot_contains(rows: Seq<Vote>, voter: i32, id: i32)
    ensures
        ballot_of(rows, voter).contains(id) <==> exists|i: int|
            0 <= i < rows.len() && (#[trigger] rows[i]).user_id == voter && rows[i].item_id == id,
    decreases rows.len(),
{
    if rows.len() > 0 {
        let head = rows.drop_last();
        let row = rows.last();
        lemma_ballot_contains(head, voter, id);
        assert(rows =~= head.push(row));
        lemma_ballot_push(head, row, voter);
        if exists|i: int|
            0 <= i < rows.len() && (#[trigger] rows[i]).user_id == voter && rows[i].item_id == id {
            let i = choose|i: int|
                0 <= i < rows.len() && (#[trigger] rows[i]).user_id == voter && rows[i].item_id
                    == id;
            if i < head.len() {
                let at = choose|at: int|
                    0 <= at < ballot_of(head, voter).len() && ballot_of(head, voter)[at] == id;
                assert(ballot_of(rows, voter)[at] == id);
            } else {
                let last = ballot_of(rows, voter).len() - 1;
                assert(ballot_of(rows, voter)[last] == id);
            }
        }
    }
}

/// Sieving twice with a finer sieve second is sieving with the finer sieve.
pub proof fn lemma_filter_finer(
    rows: Seq<Vote>,
    coarse: spec_fn(Vote) -> bool,
    fine: spec_fn(Vote) -> bool,
)
    requires
        forall|v: Vote| #[trigger] fine(v) ==> coarse(v),
    ensures
        rows.filter(coarse).filter(fine) == rows.filter(fine),
    decreases rows.len(),
{
    if rows.len() > 0 {
        let head = rows.drop_last();
        let row = rows.last();
        lemma_filter_finer(head, coarse, fine);
        assert(rows =~= head.push(row));
        head.lemma_filter_push(row, coarse);
        head.lemma_filter_push(row, fine);
        if coarse(row) {
            head.filter(coarse).lemma_filter_push(row, fine);
        }
    }
}

/// Sieving twice with sieves that pass nothing in common leaves nothing.
pub proof fn lemma_filter_apart(
    rows: Seq<Vote>,
    one: spec_fn(Vote) -> bool,
    other: spec_fn(Vote) -> bool,
)
    requires
        forall|v: Vote| #[trigger] one(v) ==> !other(v),
    ensures
        rows.filter(one).filter(other) == Seq::<Vote>::empty(),
    decreases rows.len(),
{
    if rows.len() > 0 {
        let head = rows.drop_last();
        let row = rows.last();
        lemma_filter_apart(head, one, other);
        assert(rows =~= head.push(row));
        head.lemma_filter_push(row, one);
        if one(row) {
            head.filter(one).lemma_filter_push(row, other);
        }
    }
}

/// A sieve that passes every row leaves the rows as they are.
pub proof fn lemma_filter_all(rows: Seq<Vote>, kept: spec_fn(Vote) -> bool)
    requires
        forall|i: int| 0 <= i < rows.len() ==> kept(#[trigger] rows[i]),
    ensures
        rows.filter(kept) == rows,
    decreases rows.len(),
{
    if rows.len() > 0 {
        let head = rows.drop_last();
        lemma_filter_all(head, kept);
        assert(rows =~= head.push(rows.last()));
        head.lemma_filter_push(rows.last(), kept);
    }
}

/// A sieve that passes no row leaves nothing.
pub proof fn lemma_filter_none(rows: Seq<Vote>, kept: spec_fn(Vote) -> bool)
    requires
        forall|i: int| 0 <= i < rows.len() ==> !kept(#[trigger] rows[i]),
    ensures
        rows.filter(kept) == Seq::<Vote>::empty(),
    decreases rows.len(),
{
    if rows.len() > 0 {
        let head = rows.drop_last();
        lemma_filter_none(head, kept);
        assert(rows =~= head.push(rows.last()));
        head.lemma_filter_push(rows.last(), kept);
    }
}

} // verus!
