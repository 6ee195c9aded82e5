//! Replacing one voter's ballot: which submissions are accepted, and what the
//! ballot entries are afterwards.

use crate::rows::{
    ballot_of, cast_by, grouped, lemma_filter_all, lemma_filter_apart, lemma_filter_finer,
    lemma_filter_grouped, lemma_filter_none, ranked_in_order,
};
use crate::schema::{Item, Vote};
use crate::store::item_with;
use vstd::prelude::*;

verus! {

/// Why a submitted ballot is turned down.
#[derive(Debug, Clone, Copy, PartialEq, Eq, Structural)]
pub enum ValidationError {
    /// The ballot ranks an id that no item of the catalog has.
    UnknownItem(i32),
    /// The ballot ranks an item that is closed.
    ClosedItem(i32),
    /// The ballot ranks this item a second time.
    DuplicateItem(i32),
    /// The ballot has more entries than there are ordinals.
    TooLong,
}

/// What is wrong with entry `at` of `list`, taken by itself and against the
/// entries before it.
pub open spec fn fault_at(items: Seq<Item>, list: Seq<i32>, at: int) -> Option<ValidationError> {
    match item_with(items, list[at]) {
        None => Some(ValidationError::UnknownItem(list[at])),
        Some(item) => if item.done {
            Some(ValidationError::ClosedItem(list[at]))
        } else if list.take(at).contains(list[at]) {
            Some(ValidationError::DuplicateItem(list[at]))
        } else {
            None
        },
    }
}

/// The first thing wrong with `list` from entry `from` on; a list without a
/// faulty entry is at fault only if it is too long to number.
pub open spec fn fault_from(items: Seq<Item>, list: Seq<i32>, from: int) -> Option<ValidationError>
    decreases list.len() - from,
{
    if from < 0 || from >= list.len() {
        if list.len() > i32::MAX {
            Some(ValidationError::TooLong)
        } else {
            None
        }
    } else if fault_at(items, list, from) is Some {
        fault_at(items, list, from)
    } else {
        fault_from(items, list, from + 1)
    }
}

/// The reason for which the submitted `list` is turned down, if it is: its first
/// entry that names no item, names a closed item or repeats an earlier entry.
pub open spec fn first_fault(items: Seq<Item>, list: Seq<i32>) -> Option<ValidationError> {
    fault_from(items, list, 0)
}

/// The rows of the voters that come before `voter`.
pub open spec fn sooner(voter: i32) -> spec_fn(Vote) -> bool {
    |v: Vote| v.user_id < voter
}

/// The rows of the voters that come after `voter`.
pub open spec fn later(voter: i32) -> spec_fn(Vote) -> bool {
    |v: Vote| v.user_id > voter
}

/// The rows that record `list` as the ballot of `voter`: entry `i` at ordinal `i`.
pub open spec fn entries(voter: i32, list: Seq<i32>) -> Seq<Vote> {
    Seq::new(list.len(), |i: int| Vote { user_id: voter, item_id: list[i], ordinal: i as i32 })
}

/// The ballot entries after `voter` has handed in `list`: the voter's earlier rows
/// are gone, the new ones stand in their place, and every other row stays.
pub open spec fn replaced(rows: Seq<Vote>, voter: i32, list: Seq<i32>) -> Seq<Vote> {
    rows.filter(sooner(voter)) + entries(voter, list) + rows.filter(later(voter))
}

/// After a replacement the voter owns exactly the new rows, and every other
/// voter the rows owned before.
pub proof fn lemma_replaced_rows(rows: Seq<Vote>, voter: i32, list: Seq<i32>, whose: i32)
    ensures
        replaced(rows, voter, list).filter(cast_by(whose)) == if whose == voter {
            entries(voter, list)
        } else {
            rows.filter(cast_by(whose))
        },
{
    let a = rows.filter(sooner(voter));
    let b = entries(voter, list);
    let c = rows.filter(later(voter));
    let own = cast_by(whose);
    Seq::filter_distributes_over_add(a + b, c, own);
    Seq::filter_distributes_over_add(a, b, own);
    if whose == voter {
        lemma_filter_apart(rows, sooner(voter), own);
        lemma_filter_apart(rows, later(voter), own);
        lemma_filter_all(b, own);
    } else {
        lemma_filter_none(b, own);
        if whose < voter {
            lemma_filter_finer(rows, sooner(voter), own);
            lemma_filter_apart(rows, later(voter), own);
        } else {
            lemma_filter_apart(rows, sooner(voter), own);
            lemma_filter_finer(rows, later(voter), own);
        }
    }
}

/// After a replacement the voter's ballot is the list handed in, and every
/// other voter's ballot is what it was.
pub proof fn lemma_replaced_ballots(rows: Seq<Vote>, voter: i32, list: Seq<i32>, whose: i32)
    ensures
        ballot_of(replaced(rows, voter, list), whose) == if whose == voter {
            list
        } else {
            ballot_of(rows, whose)
        },
{
    lemma_replaced_rows(rows, voter, list, whose);
}

/// A replacement with a list that ranks nothing twice keeps the ballot entries
/// in order.
pub proof fn lemma_replaced_in_order(rows: Seq<Vote>, voter: i32, list: Seq<i32>)
    requires
        grouped(rows),
        ranked_in_order(rows),
        list.no_duplicates(),
        list.len() <= i32::MAX,
    ensures
        grouped(replaced(rows, voter, list)),
        ranked_in_order(replaced(rows, voter, list)),
{
    let fresh = replaced(rows, voter, list);
    lemma_filter_grouped(rows, sooner(voter));
    lemma_filter_grouped(rows, later(voter));
    assert forall|whose: i32, place: int|
        0 <= place < fresh.filter(cast_by(whose)).len() implies (#[trigger] fresh.filter(
        cast_by(whose),
    )[place]).ordinal == place by {
        lemma_replaced_rows(rows, voter, list, whose);
    }
    assert forall|whose: i32| #[trigger] ballot_of(fresh, whose).no_duplicates() by {
        lemma_replaced_ballots(rows, voter, list, whose);
    }
}

} // verus!
