//! What holds of every instant-runoff count.

use crate::tally::{
    ascending, backs, candidates, count_from, count_where, has_majority, is_ascending,
    lemma_ascending_exists, lemma_majority_unique, lemma_survivors_fewer, survivors, takes_part,
    tally, top_choice, turnout, votes_for, Outcome,
};
use vstd::prelude::*;

verus! {

/// A candidate is named by the ballots exactly if one of them lists it.
pub proof fn lemma_candidates_named(ballots: Seq<Seq<i32>>, id: i32)
    ensures
        candidates(ballots).contains(id) <==> exists|i: int|
            0 <= i < ballots.len() && #[trigger] ballots[i].contains(id),
    decreases ballots.len(),
{
    if ballots.len() > 0 {
        let head = ballots.drop_last();
        let last = ballots.last();
        lemma_candidates_named(head, id);
        assert(ballots =~= head.push(last));
        head.lemma_flatten_push(last);
        vstd::seq_lib::seq_to_set_distributes_over_add(head.flatten(), last);
    }
}

/// Two collections of ballots give every candidate the same votes, whoever is
/// in the running.
pub open spec fn counted_alike(a: Seq<Seq<i32>>, b: Seq<Seq<i32>>) -> bool {
    &&& forall|live: Set<i32>, c: i32| #[trigger]
        votes_for(a, live, c) == votes_for(b, live, c)
    &&& forall|live: Set<i32>| #[trigger] turnout(a, live) == turnout(b, live)
}

/// Ballots that are counted alike end in the same outcome.
pub proof fn lemma_alike_outcome(a: Seq<Seq<i32>>, b: Seq<Seq<i32>>, live: Set<i32>)
    requires
        counted_alike(a, b),
        live.finite(),
    ensures
        count_from(a, live) == count_from(b, live),
    decreases live.len(),
{
    assert forall|c: i32| has_majority(a, live, c) == has_majority(b, live, c) by {}
    assert(survivors(a, live) =~= survivors(b, live));
    if exists|c: i32| has_majority(a, live, c) {
        let x = choose|c: i32| has_majority(a, live, c);
        let y = choose|c: i32| has_majority(b, live, c);
        lemma_majority_unique(a, live, x, y);
    } else if live.len() > 1 && survivors(a, live).len() > 0 {
        lemma_survivors_fewer(a, live);
        lemma_alike_outcome(a, b, survivors(a, live));
    }
}

/// Taking one ballot out lowers the count by one if the ballot was counted.
proof fn lemma_count_remove(ballots: Seq<Seq<i32>>, counted: spec_fn(Seq<i32>) -> bool, at: int)
    requires
        0 <= at < ballots.len(),
    ensures
        count_where(ballots, counted) == count_where(ballots.remove(at), counted) + if counted(
            ballots[at],
        ) {
            1nat
        } else {
            0nat
        },
    decreases ballots.len(),
{
    if at != ballots.len() - 1 {
        lemma_count_remove(ballots.drop_last(), counted, at);
        assert(ballots.remove(at).drop_last() =~= ballots.drop_last().remove(at));
    }
}

/// A count does not depend on the order of the ballots.
proof fn lemma_count_reordered(
    a: Seq<Seq<i32>>,
    b: Seq<Seq<i32>>,
    counted: spec_fn(Seq<i32>) -> bool,
)
    requires
        a.to_multiset() == b.to_multiset(),
    ensures
        count_where(a, counted) == count_where(b, counted),
    decreases a.len(),
{
    vstd::seq_lib::to_multiset_len(a);
    vstd::seq_lib::to_multiset_len(b);
    if a.len() > 0 {
        let x = a.last();
        vstd::seq_lib::to_multiset_contains(a, x);
        vstd::seq_lib::to_multiset_contains(b, x);
        let at = choose|at: int| 0 <= at < b.len() && b[at] == x;
        vstd::seq_lib::to_multiset_remove(a, a.len() - 1);
        vstd::seq_lib::to_multiset_remove(b, at);
        lemma_count_reordered(a.drop_last(), b.remove(at), counted);
        lemma_count_remove(b, counted, at);
    }
}

/// The outcome does not depend on the order in which the ballots are handed in:
/// two collections that hold the same ballots, each as often as the other, end
/// in the same outcome.
pub proof fn law_order_is_immaterial(a: Seq<Seq<i32>>, b: Seq<Seq<i32>>)
    requires
        a.to_multiset() == b.to_multiset(),
    ensures
        tally(a) == tally(b),
{
    assert(counted_alike(a, b)) by {
        assert forall|live: Set<i32>, c: i32| #[trigger]
            votes_for(a, live, c) == votes_for(b, live, c) by {
            lemma_count_reordered(a, b, backs(live, c));
        }
        assert forall|live: Set<i32>| #[trigger] turnout(a, live) == turnout(b, live) by {
            lemma_count_reordered(a, b, takes_part(live));
        }
    }
    assert(candidates(a) =~= candidates(b)) by {
        assert forall|id: i32| candidates(a).contains(id) == candidates(b).contains(id) by {
            lemma_candidates_named(a, id);
            lemma_candidates_named(b, id);
            if exists|i: int| 0 <= i < a.len() && #[trigger] a[i].contains(id) {
                let i = choose|i: int| 0 <= i < a.len() && #[trigger] a[i].contains(id);
                vstd::seq_lib::to_multiset_contains(a, a[i]);
                vstd::seq_lib::to_multiset_contains(b, a[i]);
            }
            if exists|i: int| 0 <= i < b.len() && #[trigger] b[i].contains(id) {
                let i = choose|i: int| 0 <= i < b.len() && #[trigger] b[i].contains(id);
                vstd::seq_lib::to_multiset_contains(a, b[i]);
                vstd::seq_lib::to_multiset_contains(b, b[i]);
            }
        }
    }
    lemma_alike_outcome(a, b, candidates(a));
}

/// A ballot that ranks nothing changes no outcome, wherever it is put in.
pub proof fn law_blank_ballot_is_idle(ballots: Seq<Seq<i32>>, at: int)
    requires
        0 <= at <= ballots.len(),
    ensures
        tally(ballots.insert(at, Seq::empty())) == tally(ballots),
{
    let blank = Seq::<i32>::empty();
    let more = ballots.push(blank);
    vstd::seq_lib::to_multiset_insert(ballots, at, blank);
    vstd::seq_lib::to_multiset_build(ballots, blank);
    law_order_is_immaterial(ballots.insert(at, blank), more);
    assert(more.drop_last() =~= ballots);
    ballots.lemma_flatten_push(blank);
    lemma_alike_outcome(more, ballots, candidates(ballots));
}

/// A candidate that is alone in the running wins, whatever the ballots say and
/// even if none of them backs it.
pub proof fn law_last_candidate_wins(ballots: Seq<Seq<i32>>, last: i32)
    ensures
        count_from(ballots, set![last]) == Outcome::Winner(last),
{
    let live = set![last];
    assert(live.contains(live.choose()));
}

/// The ballots that rank `candidate` first.
pub open spec fn ranks_first(candidate: i32) -> spec_fn(Seq<i32>) -> bool {
    |b: Seq<i32>| b.len() > 0 && b[0] == candidate
}

/// The ballots that rank anything at all.
pub open spec fn ranks_any() -> spec_fn(Seq<i32>) -> bool {
    |b: Seq<i32>| b.len() > 0
}

/// Two tests that agree on every ballot count the same number of them.
proof fn lemma_count_agrees(
    ballots: Seq<Seq<i32>>,
    p: spec_fn(Seq<i32>) -> bool,
    q: spec_fn(Seq<i32>) -> bool,
)
    requires
        forall|i: int| 0 <= i < ballots.len() ==> p(#[trigger] ballots[i]) == q(ballots[i]),
    ensures
        count_where(ballots, p) == count_where(ballots, q),
    decreases ballots.len(),
{
    if ballots.len() > 0 {
        lemma_count_agrees(ballots.drop_last(), p, q);
    }
}

/// If some ballots are counted, one of them passes the test.
proof fn lemma_counted_exists(ballots: Seq<Seq<i32>>, p: spec_fn(Seq<i32>) -> bool) -> (at: int)
    requires
        count_where(ballots, p) > 0,
    ensures
        0 <= at < ballots.len(),
        p(ballots[at]),
    decreases ballots.len(),
{
    if p(ballots.last()) {
        ballots.len() - 1
    } else {
        lemma_counted_exists(ballots.drop_last(), p)
    }
}

/// A candidate ranked first on more than half of the ballots that rank anything
/// wins, and the first round decides it.
pub proof fn law_majority_wins(ballots: Seq<Seq<i32>>, candidate: i32)
    requires
        2 * count_where(ballots, ranks_first(candidate)) > count_where(ballots, ranks_any()),
    ensures
        tally(ballots) == Outcome::Winner(candidate),
        has_majority(ballots, candidates(ballots), candidate),
{
    let live = candidates(ballots);
    assert forall|i: int| 0 <= i < ballots.len() implies top_choice(#[trigger] ballots[i], live)
        == if ballots[i].len() > 0 {
        Some(ballots[i][0])
    } else {
        None
    } by {
        if ballots[i].len() > 0 {
            assert(ballots[i].contains(ballots[i][0]));
            lemma_candidates_named(ballots, ballots[i][0]);
        }
    }
    lemma_count_agrees(ballots, ranks_first(candidate), backs(live, candidate));
    lemma_count_agrees(ballots, ranks_any(), takes_part(live));
    let at = lemma_counted_exists(ballots, ranks_first(candidate));
    assert(ballots[at].contains(ballots[at][0]));
    lemma_candidates_named(ballots, candidate);
    assert(has_majority(ballots, live, candidate));
    let chosen = choose|c: i32| has_majority(ballots, live, c);
    lemma_majority_unique(ballots, live, chosen, candidate);
}

/// A count names only candidates that were in the running: the winner is one
/// of them, and a tie lists at least two of them in ascending order.
pub proof fn law_outcome_in_running(ballots: Seq<Seq<i32>>, live: Set<i32>)
    requires
        live.finite(),
    ensures
        match count_from(ballots, live) {
            Outcome::Winner(id) => live.contains(id),
            Outcome::Tie(ids) => is_ascending(ids) && ids.len() >= 2 && ids.to_set().subset_of(
                live,
            ),
            Outcome::NoResult => live.len() == 0,
        },
    decreases live.len(),
{
    if live.len() > 1 && !(exists|c: i32| has_majority(ballots, live, c)) {
        if survivors(ballots, live).len() == 0 {
            lemma_ascending_exists(live);
            ascending(live).unique_seq_to_set();
        } else {
            lemma_survivors_fewer(ballots, live);
            law_outcome_in_running(ballots, survivors(ballots, live));
        }
    }
}

/// A count ends without a result exactly if no ballot ranks anything.
pub proof fn law_result_iff_ranked(ballots: Seq<Seq<i32>>)
    ensures
        tally(ballots) is NoResult <==> candidates(ballots).len() == 0,
        tally(ballots) is NoResult <==> forall|i: int|
            0 <= i < ballots.len() ==> (#[trigger] ballots[i]).len() == 0,
{
    law_outcome_in_running(ballots, candidates(ballots));
    if forall|i: int| 0 <= i < ballots.len() ==> (#[trigger] ballots[i]).len() == 0 {
        assert(candidates(ballots) =~= Set::<i32>::empty()) by {
            assert forall|id: i32| !candidates(ballots).contains(id) by {
                lemma_candidates_named(ballots, id);
            }
        }
    } else {
        let i = choose|i: int| 0 <= i < ballots.len() && (#[trigger] ballots[i]).len() != 0;
        assert(ballots[i].contains(ballots[i][0]));
        lemma_candidates_named(ballots, ballots[i][0]);
    }
}

} // verus!
