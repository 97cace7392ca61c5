//! How far a run of the sort has come.
//!
//! While a sort is under way the answers heard so far are known, the later
//! ones are not.  The predicates here say where a run stands after a list of
//! answers `log`, whatever answers `rest` may follow: that is what a sorter
//! can keep true step by step.

use vstd::prelude::*;
use crate::jacobsthal::jacobsthal_seq;
use crate::transcript::{
    bound_of, insert_from, insert_rest, loser, mains_of, midpoint, partners_of, search,
    seed_chain, sort, straggler_of, waiting_list, winner, Outcome, Probe,
};

verus! {

/// After `log`, the run on `e` from `start` is over with `order`, and has
/// read all of `log`.
#[verifier::opaque]
pub open spec fn completes(e: Seq<usize>, start: int, log: Seq<bool>, order: Seq<usize>) -> bool {
    forall|rest: Seq<bool>| #[trigger]
        sort(e, log + rest, start) == (Outcome::Sorted { order, next: log.len() as int })
}

/// After `log`, the run on `e` from `start` is about to insert entry `idx`
/// of the schedule into `chain`.
#[verifier::opaque]
pub open spec fn resumes_inserting(
    e: Seq<usize>,
    start: int,
    chain: Seq<usize>,
    waiting: Seq<(usize, Option<usize>)>,
    schedule: Seq<usize>,
    idx: int,
    log: Seq<bool>,
) -> bool {
    forall|rest: Seq<bool>| #[trigger]
        sort(e, log + rest, start) == insert_rest(
            chain,
            waiting,
            schedule,
            idx,
            log + rest,
            log.len() as int,
        )
}

/// After `log`, the run on `e` from `start` is searching `chain[lo .. hi]`
/// for the place of entry `idx` of the schedule.
#[verifier::opaque]
pub open spec fn resumes_searching(
    e: Seq<usize>,
    start: int,
    chain: Seq<usize>,
    waiting: Seq<(usize, Option<usize>)>,
    schedule: Seq<usize>,
    idx: int,
    lo: int,
    hi: int,
    log: Seq<bool>,
) -> bool {
    forall|rest: Seq<bool>| #[trigger]
        sort(e, log + rest, start) == insert_from(
            chain,
            waiting,
            schedule,
            idx,
            lo,
            hi,
            log + rest,
            log.len() as int,
        )
}

/// After `log`, the search of `chain[0 .. bound]` for `elem` from `start`
/// is over at `pos`, and has read all of `log`.
pub open spec fn search_completes(
    chain: Seq<usize>,
    elem: usize,
    bound: int,
    start: int,
    log: Seq<bool>,
    pos: int,
) -> bool {
    forall|rest: Seq<bool>| #[trigger]
        search(chain, elem, 0, bound, log + rest, start) == (Probe::Found {
            pos,
            next: log.len() as int,
        })
}

/// The partner table depends on no answers but those of its pairs.
pub proof fn lemma_partners_agree(e: Seq<usize>, one: Seq<bool>, other: Seq<bool>, at: int, k: int)
    requires
        forall|j: int| at <= j < at + k ==> one[j] == other[j],
    ensures
        partners_of(e, one, at, k) == partners_of(e, other, at, k),
    decreases k,
{
    if k > 0 {
        lemma_partners_agree(e, one, other, at, k - 1);
        assert(one[at + k - 1] == other[at + k - 1]);
    }
}

/// The mains and the partner table of the first `k` pairs are the same on
/// every list that goes on from `log`, once `log` holds the answers for the
/// pairs.
pub proof fn lemma_pairs_settled(e: Seq<usize>, log: Seq<bool>, longer: Seq<bool>, at: int, k: int)
    requires
        0 <= at,
        0 <= k,
        at + k <= log.len(),
        log.is_prefix_of(longer),
    ensures
        mains_of(e, longer, at, k) == mains_of(e, log, at, k),
        partners_of(e, longer, at, k) == partners_of(e, log, at, k),
{
    assert forall|j: int| at <= j < at + k implies log[j] == longer[j] by {
        assert(longer.subrange(0, log.len() as int)[j] == longer[j]);
    }
    lemma_partners_agree(e, log, longer, at, k);
    assert(mains_of(e, longer, at, k) =~= mains_of(e, log, at, k));
}

/// One more answer settles one more pair.
pub proof fn lemma_pair_answered(e: Seq<usize>, log: Seq<bool>, at: int, k: int, answer: bool)
    requires
        0 <= at,
        0 <= k,
        log.len() == at + k,
    ensures
        mains_of(e, log.push(answer), at, k + 1) == mains_of(e, log, at, k).push(
            loser(e, k, answer),
        ),
        partners_of(e, log.push(answer), at, k + 1) == partners_of(e, log, at, k).update(
            loser(e, k, answer) as int,
            winner(e, k, answer),
        ),
{
    let longer = log.push(answer);
    assert(log.is_prefix_of(longer)) by {
        assert(longer.subrange(0, log.len() as int) =~= log);
    }
    lemma_pairs_settled(e, log, longer, at, k);
    assert(longer[at + k] == answer);
    assert(mains_of(e, longer, at, k + 1) =~= mains_of(e, log, at, k).push(loser(e, k, answer)));
}

/// With the pairs answered and the run on the mains over, the run is about
/// to insert the first entry of the schedule into the seeded chain.
pub proof fn lemma_merge_entry(
    e: Seq<usize>,
    start: int,
    paired: Seq<bool>,
    log: Seq<bool>,
    sorted_mains: Seq<usize>,
)
    requires
        e.len() >= 2,
        0 <= start,
        paired.len() == start + e.len() / 2,
        paired.is_prefix_of(log),
        completes(
            mains_of(e, paired, start, (e.len() / 2) as int),
            start + e.len() / 2,
            log,
            sorted_mains,
        ),
    ensures
        ({
            let partner = partners_of(e, paired, start, (e.len() / 2) as int);
            let waiting = waiting_list(partner, sorted_mains, straggler_of(e));
            resumes_inserting(
                e,
                start,
                seed_chain(partner, sorted_mains),
                waiting,
                jacobsthal_seq(waiting.len()),
                0,
                log,
            )
        }),
{
    reveal(completes);
    reveal(resumes_inserting);
    let pairs = (e.len() / 2) as int;
    let partner = partners_of(e, paired, start, pairs);
    let waiting = waiting_list(partner, sorted_mains, straggler_of(e));
    assert forall|rest: Seq<bool>| #[trigger]
        sort(e, log + rest, start) == insert_rest(
            seed_chain(partner, sorted_mains),
            waiting,
            jacobsthal_seq(waiting.len()),
            0,
            log + rest,
            log.len() as int,
        ) by {
        let all = log + rest;
        assert(log.is_prefix_of(all)) by {
            assert(all.subrange(0, log.len() as int) =~= log);
        }
        assert(paired.is_prefix_of(all)) by {
            assert(all.subrange(0, paired.len() as int) =~= log.subrange(0, paired.len() as int));
        }
        lemma_pairs_settled(e, paired, all, start, pairs);
        assert(sort(mains_of(e, paired, start, pairs), log + rest, start + pairs) == (
        Outcome::Sorted { order: sorted_mains, next: log.len() as int }));
    }
}

/// A run that is about to insert an entry starts the search for its place
/// below its bound.
pub proof fn lemma_search_begins(
    e: Seq<usize>,
    start: int,
    chain: Seq<usize>,
    waiting: Seq<(usize, Option<usize>)>,
    schedule: Seq<usize>,
    idx: int,
    log: Seq<bool>,
)
    requires
        0 <= idx < schedule.len(),
        resumes_inserting(e, start, chain, waiting, schedule, idx, log),
    ensures
        resumes_searching(
            e,
            start,
            chain,
            waiting,
            schedule,
            idx,
            0,
            bound_of(chain, waiting[schedule[idx] as int].1),
            log,
        ),
{
    reveal(resumes_inserting);
    reveal(resumes_searching);
}

/// An answer halves the range of a search.
pub proof fn lemma_search_answered(
    e: Seq<usize>,
    start: int,
    chain: Seq<usize>,
    waiting: Seq<(usize, Option<usize>)>,
    schedule: Seq<usize>,
    idx: int,
    lo: int,
    hi: int,
    log: Seq<bool>,
    answer: bool,
)
    requires
        0 <= idx < schedule.len(),
        lo < hi,
        resumes_searching(e, start, chain, waiting, schedule, idx, lo, hi, log),
    ensures
        answer ==> resumes_searching(
            e,
            start,
            chain,
            waiting,
            schedule,
            idx,
            lo,
            midpoint(lo, hi),
            log.push(answer),
        ),
        !answer ==> resumes_searching(
            e,
            start,
            chain,
            waiting,
            schedule,
            idx,
            midpoint(lo, hi) + 1,
            hi,
            log.push(answer),
        ),
{
    reveal(resumes_searching);
    let longer = log.push(answer);
    let (lo2, hi2) = if answer {
        (lo, midpoint(lo, hi))
    } else {
        (midpoint(lo, hi) + 1, hi)
    };
    assert forall|rest: Seq<bool>| #[trigger]
        sort(e, longer + rest, start) == insert_from(
            chain,
            waiting,
            schedule,
            idx,
            lo2,
            hi2,
            longer + rest,
            longer.len() as int,
        ) by {
        let tail = seq![answer] + rest;
        assert(log + tail =~= longer + rest);
        assert(sort(e, log + tail, start) == insert_from(
            chain,
            waiting,
            schedule,
            idx,
            lo,
            hi,
            log + tail,
            log.len() as int,
        ));
        assert((log + tail)[log.len() as int] == answer);
    }
}

/// A search that has come down to one position puts the element there, and
/// the run is about to insert the next entry.
pub proof fn lemma_search_ends(
    e: Seq<usize>,
    start: int,
    chain: Seq<usize>,
    waiting: Seq<(usize, Option<usize>)>,
    schedule: Seq<usize>,
    idx: int,
    lo: int,
    log: Seq<bool>,
)
    requires
        0 <= idx < schedule.len(),
        resumes_searching(e, start, chain, waiting, schedule, idx, lo, lo, log),
    ensures
        resumes_inserting(
            e,
            start,
            chain.insert(lo, waiting[schedule[idx] as int].0),
            waiting,
            schedule,
            idx + 1,
            log,
        ),
{
    reveal(resumes_inserting);
    reveal(resumes_searching);
    let elem = waiting[schedule[idx] as int].0;
    assert forall|rest: Seq<bool>| #[trigger]
        sort(e, log + rest, start) == insert_rest(
            chain.insert(lo, elem),
            waiting,
            schedule,
            idx + 1,
            log + rest,
            log.len() as int,
        ) by {
        assert(search(chain, elem, lo, lo, log + rest, log.len() as int) == (Probe::Found {
            pos: lo,
            next: log.len() as int,
        }));
    }
}

/// A whole search, run on a longer list of answers, puts the element in
/// its place, and the run is about to insert the next entry.
pub proof fn lemma_search_done(
    e: Seq<usize>,
    start: int,
    chain: Seq<usize>,
    waiting: Seq<(usize, Option<usize>)>,
    schedule: Seq<usize>,
    idx: int,
    log: Seq<bool>,
    longer: Seq<bool>,
    pos: int,
)
    requires
        0 <= idx < schedule.len(),
        log.is_prefix_of(longer),
        resumes_inserting(e, start, chain, waiting, schedule, idx, log),
        search_completes(
            chain,
            waiting[schedule[idx] as int].0,
            bound_of(chain, waiting[schedule[idx] as int].1),
            log.len() as int,
            longer,
            pos,
        ),
    ensures
        resumes_inserting(
            e,
            start,
            chain.insert(pos, waiting[schedule[idx] as int].0),
            waiting,
            schedule,
            idx + 1,
            longer,
        ),
{
    reveal(resumes_inserting);
    let elem = waiting[schedule[idx] as int].0;
    let bound = bound_of(chain, waiting[schedule[idx] as int].1);
    assert forall|rest: Seq<bool>| #[trigger]
        sort(e, longer + rest, start) == insert_rest(
            chain.insert(pos, elem),
            waiting,
            schedule,
            idx + 1,
            longer + rest,
            longer.len() as int,
        ) by {
        let tail = longer.subrange(log.len() as int, longer.len() as int) + rest;
        assert(log + tail =~= longer + rest);
        assert(sort(e, log + tail, start) == insert_rest(
            chain,
            waiting,
            schedule,
            idx,
            log + tail,
            log.len() as int,
        ));
        assert(search(chain, elem, 0, bound, longer + rest, log.len() as int) == (Probe::Found {
            pos,
            next: longer.len() as int,
        }));
    }
}

/// With every entry of the schedule inserted, the run is over.
pub proof fn lemma_inserting_ends(
    e: Seq<usize>,
    start: int,
    chain: Seq<usize>,
    waiting: Seq<(usize, Option<usize>)>,
    schedule: Seq<usize>,
    idx: int,
    log: Seq<bool>,
)
    requires
        idx >= schedule.len(),
        resumes_inserting(e, start, chain, waiting, schedule, idx, log),
    ensures
        completes(e, start, log, chain),
{
    reveal(resumes_inserting);
    reveal(completes);
    assert forall|rest: Seq<bool>| #[trigger]
        sort(e, log + rest, start) == (Outcome::Sorted { order: chain, next: log.len() as int }) by {
        assert(insert_rest(chain, waiting, schedule, idx, log + rest, log.len() as int) == (
        Outcome::Sorted { order: chain, next: log.len() as int }));
    }
}

/// Fewer than two elements are in order before any answer.
pub proof fn lemma_short_completes(e: Seq<usize>, log: Seq<bool>)
    requires
        e.len() <= 1,
    ensures
        completes(e, log.len() as int, log, e),
{
    reveal(completes);
}

/// A run that is over after `log` is over on `log` itself.
pub proof fn lemma_completes_now(e: Seq<usize>, start: int, log: Seq<bool>, order: Seq<usize>)
    requires
        completes(e, start, log, order),
    ensures
        sort(e, log, start) == (Outcome::Sorted { order, next: log.len() as int }),
{
    reveal(completes);
    assert(log + Seq::<bool>::empty() =~= log);
    assert(sort(e, log + Seq::<bool>::empty(), start) == (Outcome::Sorted {
        order,
        next: log.len() as int,
    }));
}

/// A search with positions left, after the last answer, waits on the
/// question about its middle position.
pub proof fn lemma_searching_asks(
    e: Seq<usize>,
    start: int,
    chain: Seq<usize>,
    waiting: Seq<(usize, Option<usize>)>,
    schedule: Seq<usize>,
    idx: int,
    lo: int,
    hi: int,
    log: Seq<bool>,
)
    requires
        0 <= idx < schedule.len(),
        lo < hi,
        resumes_searching(e, start, chain, waiting, schedule, idx, lo, hi, log),
    ensures
        sort(e, log, start) == (Outcome::Asks {
            a: waiting[schedule[idx] as int].0,
            b: chain[midpoint(lo, hi)],
        }),
{
    reveal(resumes_searching);
    assert(log + Seq::<bool>::empty() =~= log);
    assert(sort(e, log + Seq::<bool>::empty(), start) == insert_from(
        chain,
        waiting,
        schedule,
        idx,
        lo,
        hi,
        log + Seq::<bool>::empty(),
        log.len() as int,
    ));
}

} // verus!
