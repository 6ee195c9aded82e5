//! Instant-runoff counting: the mathematical definition of a count.

use vstd::prelude::*;

verus! {

/// What a count ends in, as a mathematical value.
pub enum Outcome {
    /// One candidate holds a majority, or is the only one left.
    Winner(i32),
    /// The candidates that remain all hold the same number of votes; they are
    /// listed in ascending order.
    Tie(Seq<i32>),
    /// No ballot names a candidate.
    NoResult,
}

/// The one candidate that an outcome stands for: the winner, or the smallest id
/// of a tie.
pub open spec fn pick(outcome: Outcome) -> Option<i32> {
    match outcome {
        Outcome::Winner(id) => Some(id),
        Outcome::Tie(ids) => if ids.len() > 0 {
            Some(ids[0])
        } else {
            None
        },
        Outcome::NoResult => None,
    }
}

/// The first entry of `ballot` that is still in the running.
pub open spec fn top_choice(ballot: Seq<i32>, live: Set<i32>) -> Option<i32>
    decreases ballot.len(),
{
    if ballot.len() == 0 {
        None
    } else if live.contains(ballot[0]) {
        Some(ballot[0])
    } else {
        top_choice(ballot.drop_first(), live)
    }
}

/// How many of `ballots` satisfy `counted`.
pub open spec fn count_where(ballots: Seq<Seq<i32>>, counted: spec_fn(Seq<i32>) -> bool) -> nat
    decreases ballots.len(),
{
    if ballots.len() == 0 {
        0
    } else {
        count_where(ballots.drop_last(), counted) + if counted(ballots.last()) {
            1nat
        } else {
            0nat
        }
    }
}

/// The ballots whose first live entry is `candidate`.
pub open spec fn backs(live: Set<i32>, candidate: i32) -> spec_fn(Seq<i32>) -> bool {
    |b: Seq<i32>| top_choice(b, live) == Some(candidate)
}

/// The ballots that name at least one live candidate.
pub open spec fn takes_part(live: Set<i32>) -> spec_fn(Seq<i32>) -> bool {
    |b: Seq<i32>| top_choice(b, live) is Some
}

/// The number of ballots whose first live entry is `candidate`.
pub open spec fn votes_for(ballots: Seq<Seq<i32>>, live: Set<i32>, candidate: i32) -> nat {
    count_where(ballots, backs(live, candidate))
}

/// The number of ballots that name at least one live candidate.
pub open spec fn turnout(ballots: Seq<Seq<i32>>, live: Set<i32>) -> nat {
    count_where(ballots, takes_part(live))
}

/// `candidate` is live and holds more than half of the votes cast in this round.
pub open spec fn has_majority(ballots: Seq<Seq<i32>>, live: Set<i32>, candidate: i32) -> bool {
    live.contains(candidate) && 2 * votes_for(ballots, live, candidate) > turnout(ballots, live)
}

/// `candidate` is live and no live candidate holds fewer votes.
pub open spec fn trails(ballots: Seq<Seq<i32>>, live: Set<i32>, candidate: i32) -> bool {
    live.contains(candidate) && forall|other: i32| #[trigger]
        live.contains(other) ==> votes_for(ballots, live, candidate) <= votes_for(
            ballots,
            live,
            other,
        )
}

/// The live candidates that hold more votes than the fewest held.
pub open spec fn survivors(ballots: Seq<Seq<i32>>, live: Set<i32>) -> Set<i32> {
    live.filter(|c: i32| !trails(ballots, live, c))
}

/// Each entry is smaller than every later one.
pub open spec fn is_ascending(ids: Seq<i32>) -> bool {
    forall|i: int, j: int| 0 <= i < j < ids.len() ==> ids[i] < ids[j]
}

/// The members of `ids`, smallest first.
pub open spec fn ascending(ids: Set<i32>) -> Seq<i32> {
    choose|s: Seq<i32>| is_ascending(s) && s.to_set() == ids
}

/// The outcome of counting `ballots` when only the candidates in `live` are in
/// the running.
///
/// A candidate with a majority of the round's votes wins. Failing that, a sole
/// candidate wins, and otherwise the candidates with the fewest votes drop out
/// together; if that would leave nobody, the round ends in a tie between them.
pub open spec fn count_from(ballots: Seq<Seq<i32>>, live: Set<i32>) -> Outcome
    decreases live.len(),
    when live.finite()
{
    if live.len() == 0 {
        Outcome::NoResult
    } else if exists|c: i32| has_majority(ballots, live, c) {
        Outcome::Winner(choose|c: i32| has_majority(ballots, live, c))
    } else if live.len() == 1 {
        Outcome::Winner(live.choose())
    } else if survivors(ballots, live).len() == 0 {
        Outcome::Tie(ascending(live))
    } else {
        proof {
            lemma_survivors_fewer(ballots, live);
        }
        count_from(ballots, survivors(ballots, live))
    }
}

/// Every candidate that some ballot names.
pub open spec fn candidates(ballots: Seq<Seq<i32>>) -> Set<i32> {
    ballots.flatten().to_set()
}

/// The outcome of an instant-runoff count of `ballots`, each a ranking with the
/// most preferred candidate first.
pub open spec fn tally(ballots: Seq<Seq<i32>>) -> Outcome {
    count_from(ballots, candidates(ballots))
}

/// Among finitely many candidates, one has the fewest votes.
pub proof fn lemma_someone_trails(ballots: Seq<Seq<i32>>, live: Set<i32>)
    requires
        live.finite(),
        live.len() > 0,
    ensures
        exists|c: i32| trails(ballots, live, c),
{
    let c = lemma_least(live, |c: i32| votes_for(ballots, live, c) as int);
    assert(trails(ballots, live, c));
}

/// A finite, non-empty set has a member at which `weight` is least.
proof fn lemma_least(s: Set<i32>, weight: spec_fn(i32) -> int) -> (least: i32)
    requires
        s.finite(),
        s.len() > 0,
    ensures
        s.contains(least),
        forall|other: i32| s.contains(other) ==> weight(least) <= weight(other),
    decreases s.len(),
{
    let x = s.choose();
    let rest = s.remove(x);
    if rest.len() == 0 {
        x
    } else {
        let m = lemma_least(rest, weight);
        if weight(x) <= weight(m) {
            x
        } else {
            m
        }
    }
}

/// Dropping the candidates with the fewest votes leaves fewer candidates.
pub proof fn lemma_survivors_fewer(ballots: Seq<Seq<i32>>, live: Set<i32>)
    requires
        live.finite(),
        live.len() > 0,
    ensures
        survivors(ballots, live).finite(),
        survivors(ballots, live).len() < live.len(),
        survivors(ballots, live).subset_of(live),
{
    lemma_someone_trails(ballots, live);
    let c = choose|c: i32| trails(ballots, live, c);
    let rest = survivors(ballots, live);
    vstd::set_lib::lemma_len_subset(rest, live.remove(c));
}

/// A ballot backs at most one candidate, so two candidates' votes add up to no
/// more than the turnout.
pub proof fn lemma_votes_within_turnout(ballots: Seq<Seq<i32>>, live: Set<i32>, a: i32, b: i32)
    requires
        a != b,
    ensures
        votes_for(ballots, live, a) + votes_for(ballots, live, b) <= turnout(ballots, live),
    decreases ballots.len(),
{
    if ballots.len() > 0 {
        lemma_votes_within_turnout(ballots.drop_last(), live, a, b);
    }
}

/// At most one candidate holds a majority.
pub proof fn lemma_majority_unique(ballots: Seq<Seq<i32>>, live: Set<i32>, a: i32, b: i32)
    requires
        has_majority(ballots, live, a),
        has_majority(ballots, live, b),
    ensures
        a == b,
{
    if a != b {
        lemma_votes_within_turnout(ballots, live, a, b);
    }
}

/// A set has at most one ascending listing.
pub proof fn lemma_ascending_unique(a: Seq<i32>, b: Seq<i32>)
    requires
        is_ascending(a),
        is_ascending(b),
        a.to_set() == b.to_set(),
    ensures
        a == b,
    decreases a.len(),
{
    a.unique_seq_to_set();
    b.unique_seq_to_set();
    if a.len() > 0 {
        assert(a.drop_last().to_set() =~= a.to_set().remove(a.last())) by {
            assert forall|x: i32| a.to_set().remove(a.last()).contains(x) implies a.drop_last()
                .contains(x) by {
                let i = choose|i: int| 0 <= i < a.len() && a[i] == x;
                assert(a.drop_last()[i] == x);
            }
        }
        assert(b.drop_last().to_set() =~= b.to_set().remove(b.last())) by {
            assert forall|x: i32| b.to_set().remove(b.last()).contains(x) implies b.drop_last()
                .contains(x) by {
                let i = choose|i: int| 0 <= i < b.len() && b[i] == x;
                assert(b.drop_last()[i] == x);
            }
        }
        lemma_ascending_unique(a.drop_last(), b.drop_last());
        assert(a =~= a.drop_last().push(a.last()));
    }
}

/// Every finite set has an ascending listing.
pub proof fn lemma_ascending_exists(ids: Set<i32>) -> (listed: Seq<i32>)
    requires
        ids.finite(),
    ensures
        is_ascending(listed),
        listed.to_set() == ids,
        ascending(ids) == listed,
    decreases ids.len(),
{
    if ids.len() == 0 {
        let listed = Seq::<i32>::empty();
        assert(listed.to_set() =~= ids);
        lemma_ascending_of(listed);
        listed
    } else {
        let top = lemma_least(ids, |id: i32| -id);
        let rest = lemma_ascending_exists(ids.remove(top));
        let listed = rest.push(top);
        assert forall|i: int, j: int| 0 <= i < j < listed.len() implies listed[i] < listed[j] by {
            assert(ids.remove(top).contains(listed[i]));
        }
        rest.lemma_push_to_set_commute(top);
        lemma_ascending_of(listed);
        listed
    }
}

/// An ascending listing of a set is the set's ascending listing.
pub proof fn lemma_ascending_of(ids: Seq<i32>)
    requires
        is_ascending(ids),
    ensures
        ascending(ids.to_set()) == ids,
{
    let picked = ascending(ids.to_set());
    lemma_ascending_unique(picked, ids);
}

} // verus!
