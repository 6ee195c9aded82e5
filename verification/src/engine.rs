//! The instant-runoff count, carried out.

use crate::tally::{
    candidates, count_from, has_majority, is_ascending, lemma_ascending_of, lemma_majority_unique,
    lemma_survivors_fewer, pick, survivors, tally, top_choice, trails, turnout, votes_for, Outcome,
};
use vstd::prelude::*;

verus! {

/// The result of an election.
#[derive(Debug, PartialEq, Eq)]
pub enum ElectionResult {
    /// The candidate that holds a majority, or is the last one standing.
    Winner(i32),
    /// The candidates left in a dead heat, in ascending order.
    Tie(Vec<i32>),
    /// No ballot names a candidate.
    NoResult,
}

impl View for ElectionResult {
    type V = Outcome;

    open spec fn view(&self) -> Outcome {
        match *self {
            ElectionResult::Winner(id) => Outcome::Winner(id),
            ElectionResult::Tie(ids) => Outcome::Tie(ids@),
            ElectionResult::NoResult => Outcome::NoResult,
        }
    }
}

impl ElectionResult {
    /// The one candidate to go on with: the winner, or, of a tie, the candidate
    /// with the smallest id.
    pub fn resolve(&self) -> (id: Option<i32>)
        ensures
            id == pick(self@),
    {
        match self {
            ElectionResult::Winner(id) => Some(*id),
            ElectionResult::Tie(ids) => if ids.len() > 0 {
                Some(ids[0])
            } else {
                None
            },
            ElectionResult::NoResult => None,
        }
    }
}

/// The rankings that a collection of ballots holds.
pub open spec fn rankings(ballots: Seq<Vec<i32>>) -> Seq<Seq<i32>> {
    ballots.map_values(|b: Vec<i32>| b@)
}

/// Where `id` stands in `ids`, if it occurs there.
pub(crate) fn position(ids: &Vec<i32>, id: i32) -> (at: Option<usize>)
    ensures
        match at {
            Some(k) => k < ids.len() && ids[k as int] == id,
            None => !ids@.contains(id),
        },
{
    let mut k: usize = 0;
    while k < ids.len()
        invariant
            k <= ids.len(),
            forall|j: int| 0 <= j < k ==> ids[j] != id,
        decreases ids.len() - k,
    {
        if ids[k] == id {
            return Some(k);
        }
        k += 1;
    }
    None
}

/// The place in `live` of the first entry of `ballot` that `live` holds.
fn leading(ballot: &Vec<i32>, live: &Vec<i32>) -> (at: Option<usize>)
    ensures
        match at {
            Some(k) => k < live.len() && top_choice(ballot@, live@.to_set()) == Some(
                live[k as int],
            ),
            None => top_choice(ballot@, live@.to_set()) is None,
        },
{
    let mut i: usize = 0;
    assert(ballot@.skip(0) =~= ballot@);
    while i < ballot.len()
        invariant
            i <= ballot.len(),
            top_choice(ballot@, live@.to_set()) == top_choice(
                ballot@.skip(i as int),
                live@.to_set(),
            ),
        decreases ballot.len() - i,
    {
        let found = position(live, ballot[i]);
        if found.is_some() {
            return found;
        }
        assert(ballot@.skip(i as int).drop_first() =~= ballot@.skip(i as int + 1));
        i += 1;
    }
    None
}

/// One round's count: the votes of each live candidate, in the order of `live`,
/// and the number of ballots that voted.
fn count_round(ballots: &Vec<Vec<i32>>, live: &Vec<i32>) -> (round: (Vec<usize>, usize))
    requires
        is_ascending(live@),
    ensures
        round.0.len() == live.len(),
        forall|k: int|
            0 <= k < live.len() ==> round.0[k] == votes_for(
                rankings(ballots@),
                live@.to_set(),
                #[trigger] live[k],
            ),
        round.1 == turnout(rankings(ballots@), live@.to_set()),
{
    let ghost all = rankings(ballots@);
    let ghost running = live@.to_set();
    let mut counts: Vec<usize> = Vec::new();
    let mut k: usize = 0;
    while k < live.len()
        invariant
            k <= live.len(),
            counts.len() == k,
            forall|j: int| 0 <= j < k ==> counts[j] == 0,
        decreases live.len() - k,
    {
        counts.push(0);
        k += 1;
    }
    let mut voted: usize = 0;
    let mut i: usize = 0;
    while i < ballots.len()
        invariant
            i <= ballots.len(),
            all == rankings(ballots@),
            running == live@.to_set(),
            is_ascending(live@),
            counts.len() == live.len(),
            voted == turnout(all.take(i as int), running),
            voted <= i,
            forall|j: int|
                0 <= j < live.len() ==> counts[j] == votes_for(
                    all.take(i as int),
                    running,
                    #[trigger] live[j],
                ) && counts[j] <= i,
        decreases ballots.len() - i,
    {
        let ghost seen = all.take(i as int);
        let ghost next = all.take(i as int + 1);
        assert(next.drop_last() =~= seen);
        match leading(&ballots[i], live) {
            Some(at) => {
                counts.set(at, counts[at] + 1);
                voted += 1;
            },
            None => {},
        }
        i += 1;
    }
    assert(all.take(ballots.len() as int) =~= all);
    (counts, voted)
}

/// Puts `id` in its place in the ascending list `ids`, unless it is there already.
fn note_candidate(ids: &mut Vec<i32>, id: i32)
    requires
        is_ascending(old(ids)@),
    ensures
        is_ascending(final(ids)@),
        final(ids)@.to_set() == old(ids)@.to_set().insert(id),
{
    let mut at: usize = 0;
    while at < ids.len() && ids[at] < id
        invariant
            at <= ids.len(),
            ids@ == old(ids)@,
            forall|j: int| 0 <= j < at ==> ids[j] < id,
        decreases ids.len() - at,
    {
        at += 1;
    }
    if at == ids.len() || ids[at] != id {
        let ghost before = ids@;
        ids.insert(at, id);
        assert(ids@.to_set() =~= before.to_set().insert(id)) by {
            assert forall|x: i32| before.to_set().insert(id).contains(x) implies ids@.contains(
                x,
            ) by {
                if x == id {
                    assert(ids@[at as int] == x);
                } else {
                    let j = choose|j: int| 0 <= j < before.len() && before[j] == x;
                    if j < at {
                        assert(ids@[j] == x);
                    } else {
                        assert(ids@[j + 1] == x);
                    }
                }
            }
        }
    }
}

/// Every candidate that some ballot names, in ascending order.
pub fn candidates_of(ballots: &Vec<Vec<i32>>) -> (ids: Vec<i32>)
    ensures
        is_ascending(ids@),
        ids@.to_set() == candidates(rankings(ballots@)),
{
    let ghost all = rankings(ballots@);
    let mut ids: Vec<i32> = Vec::new();
    let mut i: usize = 0;
    while i < ballots.len()
        invariant
            i <= ballots.len(),
            all == rankings(ballots@),
            is_ascending(ids@),
            ids@.to_set() == candidates(all.take(i as int)),
        decreases ballots.len() - i,
    {
        let ballot = &ballots[i];
        let ghost so_far = all.take(i as int).flatten();
        let mut j: usize = 0;
        while j < ballot.len()
            invariant
                j <= ballot.len(),
                is_ascending(ids@),
                ids@.to_set() == (so_far + ballot@.take(j as int)).to_set(),
            decreases ballot.len() - j,
        {
            note_candidate(&mut ids, ballot[j]);
            proof {
                assert(so_far + ballot@.take(j as int + 1) =~= (so_far + ballot@.take(
                    j as int,
                )).push(ballot[j as int]));
                (so_far + ballot@.take(j as int)).lemma_push_to_set_commute(ballot[j as int]);
            }
            j += 1;
        }
        proof {
            assert(ballot@.take(ballot.len() as int) =~= ballot@);
            assert(all.take(i as int + 1) =~= all.take(i as int).push(ballot@));
            all.take(i as int).lemma_flatten_push(ballot@);
        }
        i += 1;
    }
    assert(all.take(ballots.len() as int) =~= all);
    ids
}

/// The place of a count that is more than half of `total`, if there is one.
fn majority_at(counts: &Vec<usize>, total: usize) -> (at: Option<usize>)
    ensures
        match at {
            Some(k) => k < counts.len() && 2 * counts[k as int] > total,
            None => forall|j: int| 0 <= j < counts.len() ==> 2 * counts[j] <= total,
        },
{
    let mut k: usize = 0;
    while k < counts.len()
        invariant
            k <= counts.len(),
            forall|j: int| 0 <= j < k ==> 2 * counts[j] <= total,
        decreases counts.len() - k,
    {
        if counts[k] > total / 2 {
            return Some(k);
        }
        k += 1;
    }
    None
}

/// The smallest of `counts`.
fn fewest(counts: &Vec<usize>) -> (least: usize)
    requires
        counts.len() > 0,
    ensures
        forall|j: int| 0 <= j < counts.len() ==> least <= counts[j],
        exists|j: int| 0 <= j < counts.len() && counts[j] == least,
{
    let mut least: usize = counts[0];
    let mut k: usize = 1;
    while k < counts.len()
        invariant
            1 <= k <= counts.len(),
            forall|j: int| 0 <= j < k ==> least <= counts[j],
            exists|j: int| 0 <= j < k && counts[j] == least,
        decreases counts.len() - k,
    {
        if counts[k] < least {
            least = counts[k];
        }
        k += 1;
    }
    least
}

/// The candidates of `live` whose count is above `least`, in the order of `live`.
fn above(live: &Vec<i32>, counts: &Vec<usize>, least: usize) -> (kept: Vec<i32>)
    requires
        is_ascending(live@),
        counts.len() == live.len(),
    ensures
        is_ascending(kept@),
        kept.len() <= live.len(),
        forall|x: i32|
            kept@.contains(x) <==> exists|m: int|
                0 <= m < live.len() && live[m] == x && counts[m] > least,
{
    let mut kept: Vec<i32> = Vec::new();
    let mut k: usize = 0;
    while k < live.len()
        invariant
            k <= live.len(),
            counts.len() == live.len(),
            is_ascending(live@),
            is_ascending(kept@),
            kept.len() <= k,
            forall|x: i32|
                kept@.contains(x) <==> exists|m: int|
                    0 <= m < k && live[m] == x && counts[m] > least,
        decreases live.len() - k,
    {
        if counts[k] > least {
            let ghost before = kept@;
            kept.push(live[k]);
            proof {
                assert forall|a: int, b: int| 0 <= a < b < kept@.len() implies kept@[a]
                    < kept@[b] by {
                    if b == before.len() {
                        assert(before.contains(before[a]));
                    }
                }
                assert forall|x: i32|
                    kept@.contains(x) <==> exists|m: int|
                        0 <= m < k + 1 && live[m] == x && counts[m] > least by {
                    if kept@.contains(x) {
                        let j = choose|j: int| 0 <= j < kept@.len() && kept@[j] == x;
                        if j < before.len() {
                            assert(before.contains(x));
                        }
                    }
                    if exists|m: int| 0 <= m < k + 1 && live[m] == x && counts[m] > least {
                        let m = choose|m: int| 0 <= m < k + 1 && live[m] == x && counts[m] > least;
                        if m < k {
                            assert(before.contains(x));
                            let j = choose|j: int| 0 <= j < before.len() && before[j] == x;
                            assert(kept@[j] == x);
                        } else {
                            assert(kept@[before.len() as int] == x);
                        }
                    }
                }
            }
        }
        k += 1;
    }
    kept
}

/// The first entry of `ballot` that `live` holds, or `None` if it holds none of them.
pub fn first_preference(ballot: &Vec<i32>, live: &Vec<i32>) -> (choice: Option<i32>)
    ensures
        choice == top_choice(ballot@, live@.to_set()),
{
    match leading(ballot, live) {
        Some(k) => Some(live[k]),
        None => None,
    }
}

/// Counts `ballots`, each a ranking with the most preferred candidate first, by
/// instant runoff.
///
/// Candidates are the ids that the ballots name. In each round a ballot backs
/// the first of its entries that is still in the running. A candidate backed by
/// more than half of the ballots that voted wins; so does a sole remaining
/// candidate. Otherwise the candidates with the fewest votes drop out together,
/// unless these are all that is left: then they tie.
pub fn run_election(ballots: &Vec<Vec<i32>>) -> (result: ElectionResult)
    ensures
        result@ == tally(rankings(ballots@)),
{
    let ghost all = rankings(ballots@);
    let mut live = candidates_of(ballots);
    loop
        invariant
            all == rankings(ballots@),
            is_ascending(live@),
            count_from(all, live@.to_set()) == tally(all),
        decreases live.len(),
    {
        let ghost running = live@.to_set();
        proof {
            live@.unique_seq_to_set();
        }
        if live.len() == 0 {
            return ElectionResult::NoResult;
        }
        let (counts, voted) = count_round(ballots, &live);
        match majority_at(&counts, voted) {
            Some(k) => {
                proof {
                    assert(has_majority(all, running, live[k as int]));
                    let chosen = choose|c: i32| has_majority(all, running, c);
                    lemma_majority_unique(all, running, chosen, live[k as int]);
                }
                return ElectionResult::Winner(live[k]);
            },
            None => {},
        }
        if live.len() == 1 {
            proof {
                assert(running.contains(live[0]));
            }
            return ElectionResult::Winner(live[0]);
        }
        let least = fewest(&counts);
        let kept = above(&live, &counts, least);
        proof {
            assert forall|m: int| 0 <= m < live.len() implies (trails(all, running, live[m])
                <==> counts[m] == least) by {
                if counts[m] != least {
                    let j = choose|j: int| 0 <= j < counts.len() && counts[j] == least;
                    assert(running.contains(live[j]));
                }
            }
            assert(kept@.to_set() =~= survivors(all, running));
            kept@.unique_seq_to_set();
            lemma_survivors_fewer(all, running);
        }
        if kept.len() == 0 {
            proof {
                lemma_ascending_of(live@);
            }
            return ElectionResult::Tie(live);
        }
        live = kept;
    }
}

} // verus!
