//! The course of a merge-insertion sort as a function of the answers given.
//!
//! The sort asks one question at a time: "does `a` rank before `b`?".  Which
//! question comes next depends on nothing but the elements and the answers
//! so far, so a run of the sort can be written down as a function of a list
//! of answers, read from a position `at` onwards: [`sort`].  On a list that
//! is too short it tells the question the run is waiting on; on a list that
//! is long enough it tells the ranking and where reading stopped.

use vstd::prelude::*;
use crate::estimate::{
    bit_length, lemma_bit_length_monotone, lemma_search_cost_front, search_cost,
    spec_estimate_turns,
};
use crate::jacobsthal::{jacobsthal_seq, lemma_jacobsthal_seq_is_arrangement};

verus! {

/// What a run comes to on a list of answers.
pub enum Outcome {
    /// The answers are used up: the run waits to hear whether `a` ranks
    /// before `b`.
    Asks { a: usize, b: usize },
    /// The run is over: `order` is the ranking, and `next` is the position
    /// after the last answer read.
    Sorted { order: Seq<usize>, next: int },
}

/// What one binary search comes to on a list of answers.
pub enum Probe {
    /// The answers are used up: the search waits to hear whether `a` ranks
    /// before `b`.
    Asks { a: usize, b: usize },
    /// The search is over: the element goes to position `pos`, and `next` is
    /// the position after the last answer read.
    Found { pos: int, next: int },
}

/// The position halfway through `[lo, hi)`, rounded down.
pub open spec fn midpoint(lo: int, hi: int) -> int {
    lo + (hi - lo) / 2
}

/// Binary search for the place of `elem` in `chain[lo .. hi]`: an answer
/// "yes, `elem` ranks before `chain[mid]`" moves `hi` down to `mid`, an
/// answer "no" moves `lo` up past `mid`.
pub open spec fn search(
    chain: Seq<usize>,
    elem: usize,
    lo: int,
    hi: int,
    answers: Seq<bool>,
    at: int,
) -> Probe
    decreases hi - lo,
{
    if lo >= hi {
        Probe::Found { pos: lo, next: at }
    } else if at >= answers.len() {
        Probe::Asks { a: elem, b: chain[midpoint(lo, hi)] }
    } else if answers[at] {
        search(chain, elem, lo, midpoint(lo, hi), answers, at + 1)
    } else {
        search(chain, elem, midpoint(lo, hi) + 1, hi, answers, at + 1)
    }
}

/// The first position of `x` in `chain`, or the length of `chain` if `x`
/// does not occur.
pub open spec fn position(chain: Seq<usize>, x: usize) -> int
    decreases chain.len(),
{
    if chain.len() == 0 {
        0
    } else if chain[0] == x {
        0
    } else {
        1 + position(chain.drop_first(), x)
    }
}

/// How far into `chain` an element may go: up to the main it is bound to,
/// or anywhere if it is bound to none.
pub open spec fn bound_of(chain: Seq<usize>, main: Option<usize>) -> int {
    match main {
        Some(m) => position(chain, m),
        None => chain.len() as int,
    }
}

/// The insertions from entry `idx` of the schedule `order` onwards, where
/// the search for entry `idx` has come down to `chain[lo .. hi]`.
pub open spec fn insert_from(
    chain: Seq<usize>,
    waiting: Seq<(usize, Option<usize>)>,
    order: Seq<usize>,
    idx: int,
    lo: int,
    hi: int,
    answers: Seq<bool>,
    at: int,
) -> Outcome
    decreases order.len() - idx, 0int,
{
    if idx < 0 || idx >= order.len() {
        Outcome::Sorted { order: chain, next: at }
    } else {
        let elem = waiting[order[idx] as int].0;
        match search(chain, elem, lo, hi, answers, at) {
            Probe::Asks { a, b } => Outcome::Asks { a, b },
            Probe::Found { pos, next } => insert_rest(
                chain.insert(pos, elem),
                waiting,
                order,
                idx + 1,
                answers,
                next,
            ),
        }
    }
}

/// The insertions from entry `idx` of the schedule `order` onwards: each
/// waiting element is searched for below its bound and put in its place.
pub open spec fn insert_rest(
    chain: Seq<usize>,
    waiting: Seq<(usize, Option<usize>)>,
    order: Seq<usize>,
    idx: int,
    answers: Seq<bool>,
    at: int,
) -> Outcome
    decreases order.len() - idx, 1int,
{
    if idx < 0 || idx >= order.len() {
        Outcome::Sorted { order: chain, next: at }
    } else {
        insert_from(
            chain,
            waiting,
            order,
            idx,
            0,
            bound_of(chain, waiting[order[idx] as int].1),
            answers,
            at,
        )
    }
}

/// The main of pair `i`: the one of `e[2i]`, `e[2i + 1]` that lost.
/// `first_wins` is the answer to "does `e[2i]` rank before `e[2i + 1]`?".
pub open spec fn loser(e: Seq<usize>, i: int, first_wins: bool) -> usize {
    if first_wins {
        e[2 * i + 1]
    } else {
        e[2 * i]
    }
}

/// The partner of pair `i`: the one of `e[2i]`, `e[2i + 1]` that won.
pub open spec fn winner(e: Seq<usize>, i: int, first_wins: bool) -> usize {
    if first_wins {
        e[2 * i]
    } else {
        e[2 * i + 1]
    }
}

/// The mains of the first `k` pairs of `e`, the answer for pair `i` being
/// `answers[at + i]`.
pub open spec fn mains_of(e: Seq<usize>, answers: Seq<bool>, at: int, k: int) -> Seq<usize> {
    Seq::new(k as nat, |i: int| loser(e, i, answers[at + i]))
}

/// The largest element of `e`, or 0 if there is none.
pub open spec fn largest(e: Seq<usize>) -> usize
    decreases e.len(),
{
    if e.len() == 0 {
        0
    } else if e.last() > largest(e.drop_last()) {
        e.last()
    } else {
        largest(e.drop_last())
    }
}

/// The partner table after the first `k` pairs of `e`: a dense array, all
/// zero at first, that holds under each main the partner it was paired with.
pub open spec fn partners_of(e: Seq<usize>, answers: Seq<bool>, at: int, k: int) -> Seq<usize>
    decreases k,
{
    if k <= 0 {
        Seq::new((largest(e) + 1) as nat, |j: int| 0usize)
    } else {
        partners_of(e, answers, at, k - 1).update(
            loser(e, k - 1, answers[at + k - 1]) as int,
            winner(e, k - 1, answers[at + k - 1]),
        )
    }
}

/// The last element of an odd number of elements, which has no pair.
pub open spec fn straggler_of(e: Seq<usize>) -> Option<usize> {
    if e.len() % 2 == 1 {
        Some(e.last())
    } else {
        None
    }
}

/// The chain before any insertion: the partner of the best main, which
/// ranks before it, and then the mains in order.
pub open spec fn seed_chain(partner: Seq<usize>, sorted_mains: Seq<usize>) -> Seq<usize> {
    seq![partner[sorted_mains[0] as int]] + sorted_mains
}

/// The elements that wait for insertion: the partner of every main but the
/// best, bound to its main, and then the straggler, bound to nothing.
pub open spec fn waiting_list(
    partner: Seq<usize>,
    sorted_mains: Seq<usize>,
    straggler: Option<usize>,
) -> Seq<(usize, Option<usize>)> {
    let bound = Seq::new(
        (sorted_mains.len() - 1) as nat,
        |k: int| (partner[sorted_mains[k + 1] as int], Some(sorted_mains[k + 1])),
    );
    match straggler {
        Some(s) => bound.push((s, None)),
        None => bound,
    }
}

/// The last stage of a level: the waiting elements are inserted into the
/// seeded chain in Jacobsthal order.
pub open spec fn merge(
    partner: Seq<usize>,
    sorted_mains: Seq<usize>,
    straggler: Option<usize>,
    answers: Seq<bool>,
    at: int,
) -> Outcome {
    let waiting = waiting_list(partner, sorted_mains, straggler);
    insert_rest(
        seed_chain(partner, sorted_mains),
        waiting,
        jacobsthal_seq(waiting.len()),
        0,
        answers,
        at,
    )
}

/// A run of the sort on the elements `e`, on the answers from position `at`
/// onwards: one answer for each pair, then the run on the mains, then the
/// insertions.  Fewer than two elements are in order as they are.
pub open spec fn sort(e: Seq<usize>, answers: Seq<bool>, at: int) -> Outcome
    decreases e.len(),
{
    let pairs = (e.len() / 2) as int;
    if e.len() <= 1 {
        Outcome::Sorted { order: e, next: at }
    } else if answers.len() < at + pairs {
        Outcome::Asks { a: e[2 * (answers.len() - at)], b: e[2 * (answers.len() - at) + 1] }
    } else {
        match sort(mains_of(e, answers, at, pairs), answers, at + pairs) {
            Outcome::Asks { a, b } => Outcome::Asks { a, b },
            Outcome::Sorted { order, next } => merge(
                partners_of(e, answers, at, pairs),
                order,
                straggler_of(e),
                answers,
                next,
            ),
        }
    }
}

/// The elements `0, 1, ..., n - 1`.
pub open spec fn iota(n: nat) -> Seq<usize> {
    Seq::new(n, |i: int| i as usize)
}

/// A run of the sort on `n` items, named by their indices.
pub open spec fn rank(n: nat, answers: Seq<bool>) -> Outcome {
    sort(iota(n), answers, 0)
}

/// `position` stays within the chain.
pub proof fn lemma_position_range(chain: Seq<usize>, x: usize)
    ensures
        0 <= position(chain, x) <= chain.len(),
    decreases chain.len(),
{
    if chain.len() > 0 && chain[0] != x {
        lemma_position_range(chain.drop_first(), x);
    }
}

/// A search over `m` positions asks at most `bit_length(m)` questions, and
/// ends within the positions it was given.
pub proof fn lemma_search_bound(
    chain: Seq<usize>,
    elem: usize,
    lo: int,
    hi: int,
    answers: Seq<bool>,
    at: int,
)
    requires
        0 <= lo <= hi,
        0 <= at <= answers.len(),
    ensures
        match search(chain, elem, lo, hi, answers, at) {
            Probe::Found { pos, next } => lo <= pos <= hi && at <= next <= answers.len() && next
                - at <= bit_length((hi - lo) as nat),
            Probe::Asks { a, b } => answers.len() - at < bit_length((hi - lo) as nat),
        },
    decreases hi - lo,
{
    if lo < hi {
        let mid = midpoint(lo, hi);
        let m = (hi - lo) as nat;
        assert(bit_length(m) == 1 + bit_length(m / 2));
        if at < answers.len() {
            if answers[at] {
                assert(mid - lo == m / 2);
                lemma_search_bound(chain, elem, lo, mid, answers, at + 1);
            } else {
                lemma_bit_length_monotone((hi - (mid + 1)) as nat, m / 2);
                lemma_search_bound(chain, elem, mid + 1, hi, answers, at + 1);
            }
        }
    }
}

/// The insertions from a search in progress onwards lengthen the chain by
/// one element for each schedule entry left, and ask no more questions than
/// the search in progress and one full search for each later chain length.
pub proof fn lemma_insert_from_bound(
    chain: Seq<usize>,
    waiting: Seq<(usize, Option<usize>)>,
    order: Seq<usize>,
    idx: int,
    lo: int,
    hi: int,
    answers: Seq<bool>,
    at: int,
)
    requires
        0 <= idx < order.len(),
        0 <= lo <= hi <= chain.len(),
        0 <= at <= answers.len(),
    ensures
        match insert_from(chain, waiting, order, idx, lo, hi, answers, at) {
            Outcome::Sorted { order: out, next } => out.len() == chain.len() + order.len() - idx
                && at <= next <= answers.len() && next - at <= bit_length((hi - lo) as nat)
                + search_cost(chain.len() + 1, (chain.len() + order.len() - idx) as nat),
            Outcome::Asks { a, b } => answers.len() - at < bit_length((hi - lo) as nat)
                + search_cost(chain.len() + 1, (chain.len() + order.len() - idx) as nat),
        },
    decreases order.len() - idx, 0int,
{
    let elem = waiting[order[idx] as int].0;
    lemma_search_bound(chain, elem, lo, hi, answers, at);
    match search(chain, elem, lo, hi, answers, at) {
        Probe::Asks { a, b } => {},
        Probe::Found { pos, next } => {
            lemma_insert_rest_bound(chain.insert(pos, elem), waiting, order, idx + 1, answers, next);
        },
    }
}

/// The insertions from schedule entry `idx` onwards lengthen the chain by
/// one element for each entry left, and ask no more questions than one full
/// search for each chain length on the way.
pub proof fn lemma_insert_rest_bound(
    chain: Seq<usize>,
    waiting: Seq<(usize, Option<usize>)>,
    order: Seq<usize>,
    idx: int,
    answers: Seq<bool>,
    at: int,
)
    requires
        0 <= idx <= order.len(),
        0 <= at <= answers.len(),
    ensures
        match insert_rest(chain, waiting, order, idx, answers, at) {
            Outcome::Sorted { order: out, next } => out.len() == chain.len() + order.len() - idx
                && at <= next <= answers.len() && next - at <= search_cost(
                chain.len(),
                (chain.len() + order.len() - idx) as nat,
            ),
            Outcome::Asks { a, b } => answers.len() - at < search_cost(
                chain.len(),
                (chain.len() + order.len() - idx) as nat,
            ),
        },
    decreases order.len() - idx, 1int,
{
    if idx < order.len() {
        let main = waiting[order[idx] as int].1;
        let hi = bound_of(chain, main);
        if main is Some {
            lemma_position_range(chain, main->0);
        }
        lemma_insert_from_bound(chain, waiting, order, idx, 0, hi, answers, at);
        lemma_search_cost_front(chain.len(), (chain.len() + order.len() - idx) as nat);
        lemma_bit_length_monotone(hi as nat, chain.len());
    }
}

/// The schedule has one entry for each waiting element.
pub proof fn lemma_schedule_len(count: nat)
    requires
        count < usize::MAX,
    ensures
        jacobsthal_seq(count).len() == count,
{
    lemma_jacobsthal_seq_is_arrangement(count);
}

/// A run on `e` keeps the number of elements and asks at most
/// `spec_estimate_turns(e.len())` questions: it either ends within that many
/// answers, or waits on a question with fewer than that many answered.
pub proof fn lemma_sort_bound(e: Seq<usize>, answers: Seq<bool>, at: int)
    requires
        e.len() <= usize::MAX,
        0 <= at <= answers.len(),
    ensures
        match sort(e, answers, at) {
            Outcome::Sorted { order, next } => order.len() == e.len() && at <= next
                <= answers.len() && next - at <= spec_estimate_turns(e.len()),
            Outcome::Asks { a, b } => answers.len() - at < spec_estimate_turns(e.len()),
        },
    decreases e.len(),
{
    let pairs = (e.len() / 2) as int;
    if e.len() <= 1 {
    } else if answers.len() < at + pairs {
    } else {
        let mains = mains_of(e, answers, at, pairs);
        lemma_sort_bound(mains, answers, at + pairs);
        match sort(mains, answers, at + pairs) {
            Outcome::Asks { a, b } => {},
            Outcome::Sorted { order, next } => {
                let partner = partners_of(e, answers, at, pairs);
                let waiting = waiting_list(partner, order, straggler_of(e));
                assert(waiting.len() == e.len() - pairs - 1);
                lemma_schedule_len(waiting.len());
                lemma_insert_rest_bound(
                    seed_chain(partner, order),
                    waiting,
                    jacobsthal_seq(waiting.len()),
                    0,
                    answers,
                    next,
                );
            },
        }
    }
}

} // verus!
