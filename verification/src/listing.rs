//! A voter's own view of the catalog: each open item with the place at which
//! the voter ranks it.

use crate::rows::{ballot_of, cast_by, lemma_ballot_contains, lemma_filter_finer};
use crate::schema::{Item, Vote};
use crate::store::{distinct_items, is_open, item_with, Store};
use vstd::prelude::*;

verus! {

/// The rows of `voter` for items that are open.
pub open spec fn shown_to(items: Seq<Item>, voter: i32) -> spec_fn(Vote) -> bool {
    |v: Vote| v.user_id == voter && is_open(items, v.item_id)
}

/// A row as the voter sees it: the item, and the ordinal at which it is ranked.
pub open spec fn ranked_entry(items: Seq<Item>) -> spec_fn(Vote) -> (Item, Option<i32>) {
    |v: Vote| (item_with(items, v.item_id)->0, Some(v.ordinal))
}

/// The open items that `voter` does not rank.
pub open spec fn unranked_by(rows: Seq<Vote>, voter: i32) -> spec_fn(Item) -> bool {
    |item: Item| !item.done && !ballot_of(rows, voter).contains(item.id)
}

/// An item that the voter has not ranked.
pub open spec fn unranked_entry() -> spec_fn(Item) -> (Item, Option<i32>) {
    |item: Item| (item, None::<i32>)
}

/// The open items as `voter` sees them: first those that the voter ranks, in
/// the voter's order and each with its ordinal, then the others in the order of
/// the catalog.
pub open spec fn listing(items: Seq<Item>, rows: Seq<Vote>, voter: i32) -> Seq<
    (Item, Option<i32>),
> {
    rows.filter(shown_to(items, voter)).map_values(ranked_entry(items)) + items.filter(
        unranked_by(rows, voter),
    ).map_values(unranked_entry())
}

/// Whether `voter` ranks the item `id`.
fn ranks(votes: &Vec<Vote>, voter: i32, id: i32) -> (ranked: bool)
    ensures
        ranked == ballot_of(votes@, voter).contains(id),
{
    let mut i: usize = 0;
    while i < votes.len()
        invariant
            i <= votes.len(),
            forall|j: int|
                0 <= j < i ==> !((#[trigger] votes[j]).user_id == voter && votes[j].item_id == id),
        decreases votes.len() - i,
    {
        if votes[i].user_id == voter && votes[i].item_id == id {
            proof {
                lemma_ballot_contains(votes@, voter, id);
            }
            return true;
        }
        i += 1;
    }
    proof {
        lemma_ballot_contains(votes@, voter, id);
    }
    false
}

impl Item {
    /// The open items as the voter `uid` sees them, each with the ordinal at which
    /// the voter ranks it, or `None` where the voter does not rank it. The ranked
    /// items come first, in the voter's order; the others follow in the order of
    /// the catalog.
    pub fn for_user(uid: i32, store: &Store) -> (shown: Vec<(Item, Option<i32>)>)
        ensures
            shown@ == listing(store.catalog(), store.rows(), uid),
    {
        proof {
            use_type_invariant(store);
        }
        let items = store.items();
        let votes = store.votes();
        let ghost mine = shown_to(items@, uid);
        let ghost rest = unranked_by(votes@, uid);
        let mut shown: Vec<(Item, Option<i32>)> = Vec::new();
        let mut i: usize = 0;
        while i < votes.len()
            invariant
                i <= votes.len(),
                items@ == store.catalog(),
                distinct_items(items@),
                mine == shown_to(items@, uid),
                shown@ == votes@.take(i as int).filter(mine).map_values(ranked_entry(items@)),
            decreases votes.len() - i,
        {
            let row = votes[i];
            proof {
                assert(votes@.take(i as int + 1) =~= votes@.take(i as int).push(row));
                votes@.take(i as int).lemma_filter_push(row, mine);
            }
            if row.user_id == uid {
                match store.find_item(row.item_id) {
                    Some(item) => {
                        if !item.done {
                            shown.push((item.clone(), Some(row.ordinal)));
                        }
                    },
                    None => {},
                }
            }
            i += 1;
        }
        assert(votes@.take(votes.len() as int) =~= votes@);
        let ghost ranked = shown@;
        let mut k: usize = 0;
        while k < items.len()
            invariant
                k <= items.len(),
                rest == unranked_by(votes@, uid),
                shown@ == ranked + items@.take(k as int).filter(rest).map_values(unranked_entry()),
            decreases items.len() - k,
        {
            let item = &items[k];
            proof {
                assert(items@.take(k as int + 1) =~= items@.take(k as int).push(*item));
                items@.take(k as int).lemma_filter_push(*item, rest);
            }
            if !item.done && !ranks(votes, uid, item.id) {
                shown.push((item.clone(), None));
            }
            k += 1;
        }
        assert(items@.take(items.len() as int) =~= items@);
        shown
    }
}

/// A voter who has handed in no ballot sees every open item, and each of them as
/// unranked.
pub proof fn law_abstainer_sees_unranked(items: Seq<Item>, rows: Seq<Vote>, voter: i32)
    requires
        ballot_of(rows, voter).len() == 0,
    ensures
        forall|k: int|
            0 <= k < listing(items, rows, voter).len() ==> (#[trigger] listing(
                items,
                rows,
                voter,
            )[k]).1 is None,
        forall|i: int|
            0 <= i < items.len() && !(#[trigger] items[i]).done ==> listing(
                items,
                rows,
                voter,
            ).contains((items[i], None)),
        forall|k: int|
            0 <= k < listing(items, rows, voter).len() ==> !(#[trigger] listing(
                items,
                rows,
                voter,
            )[k]).0.done,
{
    let mine = shown_to(items, voter);
    let rest = unranked_by(rows, voter);
    lemma_filter_finer(rows, cast_by(voter), mine);
    let open = items.filter(rest);
    let shown = listing(items, rows, voter);
    assert forall|i: int|
        0 <= i < items.len() && !(#[trigger] items[i]).done implies shown.contains(
        (items[i], None),
    ) by {
        items.lemma_filter_contains(rest, i);
        let at = choose|at: int| 0 <= at < open.len() && open[at] == items[i];
        assert(shown[at] == (items[i], None::<i32>));
    }
}

} // verus!
