//! A run of the sort on answers that agree with a strict weak ordering ends
//! with the elements in that order.

use vstd::prelude::*;
use crate::comparator::{index_relation, is_strict_weak_order, ranks_before, tied};
use crate::jacobsthal::{jacobsthal_seq, lemma_jacobsthal_seq_is_arrangement};
use crate::progress::lemma_partners_agree;
use crate::rearrange::{lemma_insert_keeps, lemma_mains, lemma_partners, lemma_sort_rearranges};
use crate::transcript::{
    bound_of, insert_from, insert_rest, iota, lemma_insert_rest_bound, lemma_position_range,
    lemma_search_bound, lemma_sort_bound, loser, mains_of, midpoint, partners_of, position, rank,
    search, seed_chain, sort, straggler_of, waiting_list, winner, Outcome, Probe,
};

verus! {

/// `rel` is the "ranks before" of a strict weak ordering: it never holds
/// both ways, and where it fails from `a` to `b` and from `b` to `c` it
/// fails from `a` to `c`.
pub open spec fn is_weak_order(rel: spec_fn(usize, usize) -> bool) -> bool {
    &&& forall|a: usize, b: usize| #[trigger] rel(a, b) ==> !rel(b, a)
    &&& forall|a: usize, b: usize, c: usize|
        #![trigger rel(a, b), rel(b, c)]
        !rel(a, b) && !rel(b, c) ==> !rel(a, c)
}

/// No element of `s` ranks before an element that stands earlier in `s`.
pub open spec fn ranked(s: Seq<usize>, rel: spec_fn(usize, usize) -> bool) -> bool {
    forall|i: int, j: int| 0 <= i < j < s.len() ==> !rel(#[trigger] s[j], #[trigger] s[i])
}

/// The two lists hold the same answers at the positions in `[lo, hi)`.
pub open spec fn agree_on(one: Seq<bool>, other: Seq<bool>, lo: int, hi: int) -> bool {
    forall|j: int| lo <= j < hi ==> one[j] == other[j]
}

/// Every answer from `at` on is what `rel` says to the question that the
/// run on `e` asks at that point.
pub open spec fn answers_agree(
    e: Seq<usize>,
    answers: Seq<bool>,
    at: int,
    rel: spec_fn(usize, usize) -> bool,
) -> bool {
    forall|k: int|
        at <= k < answers.len() ==> (#[trigger] sort(e, answers.take(k), at) matches Outcome::Asks {
            a,
            b,
        } ==> answers[k] == rel(a, b))
}

/// Every answer from `at` on is what `rel` says to the question that the
/// insertions ask at that point.
pub open spec fn insertions_agree(
    chain: Seq<usize>,
    waiting: Seq<(usize, Option<usize>)>,
    schedule: Seq<usize>,
    idx: int,
    answers: Seq<bool>,
    at: int,
    rel: spec_fn(usize, usize) -> bool,
) -> bool {
    forall|k: int|
        at <= k < answers.len() ==> (#[trigger] insert_rest(
            chain,
            waiting,
            schedule,
            idx,
            answers.take(k),
            at,
        ) matches Outcome::Asks { a, b } ==> answers[k] == rel(a, b))
}

/// Every answer from `at` on is what `rel` says to the question that the
/// search asks at that point.
pub open spec fn search_agrees(
    chain: Seq<usize>,
    elem: usize,
    lo: int,
    hi: int,
    answers: Seq<bool>,
    at: int,
    rel: spec_fn(usize, usize) -> bool,
) -> bool {
    forall|k: int|
        at <= k < answers.len() ==> (#[trigger] search(
            chain,
            elem,
            lo,
            hi,
            answers.take(k),
            at,
        ) matches Probe::Asks { a, b } ==> answers[k] == rel(a, b))
}

/// Every main that a waiting element is bound to stands in the chain and
/// does not rank before the element.
pub open spec fn bounds_hold(
    chain: Seq<usize>,
    waiting: Seq<(usize, Option<usize>)>,
    rel: spec_fn(usize, usize) -> bool,
) -> bool {
    forall|i: int|
        0 <= i < waiting.len() ==> ((#[trigger] waiting[i]).1 matches Some(m) ==> chain.contains(m)
            && !rel(m, waiting[i].0))
}

/// Where `a` does not rank before `b`, nor `b` before `c`, `a` does not
/// rank before `c`.
pub proof fn lemma_not_before(rel: spec_fn(usize, usize) -> bool, a: usize, b: usize, c: usize)
    requires
        is_weak_order(rel),
        !rel(a, b),
        !rel(b, c),
    ensures
        !rel(a, c),
{
}

/// Where `a` ranks before `b`, and `c` does not rank before `b`, `a` ranks
/// before `c`.
pub proof fn lemma_before(rel: spec_fn(usize, usize) -> bool, a: usize, b: usize, c: usize)
    requires
        is_weak_order(rel),
        rel(a, b),
        !rel(c, b),
    ensures
        rel(a, c),
{
    if !rel(a, c) {
        lemma_not_before(rel, a, c, b);
    }
}

/// An element that stands in the chain stands at its position.
pub proof fn lemma_position_found(chain: Seq<usize>, x: usize)
    requires
        chain.contains(x),
    ensures
        0 <= position(chain, x) < chain.len(),
        chain[position(chain, x)] == x,
    decreases chain.len(),
{
    if chain[0] != x {
        let i = choose|i: int| 0 <= i < chain.len() && chain[i] == x;
        assert(chain.drop_first()[i - 1] == x);
        lemma_position_found(chain.drop_first(), x);
    }
}

/// A search that ended on one list of answers ends the same way on every
/// list that holds the same answers where the search read them.
pub proof fn lemma_search_agree(
    chain: Seq<usize>,
    elem: usize,
    lo: int,
    hi: int,
    one: Seq<bool>,
    other: Seq<bool>,
    at: int,
)
    requires
        0 <= lo <= hi,
        0 <= at <= one.len(),
        search(chain, elem, lo, hi, one, at) matches Probe::Found { pos, next } && next
            <= other.len() && agree_on(one, other, at, next),
    ensures
        search(chain, elem, lo, hi, other, at) == search(chain, elem, lo, hi, one, at),
    decreases hi - lo,
{
    if lo < hi {
        let mid = midpoint(lo, hi);
        if one[at] {
            lemma_search_bound(chain, elem, lo, mid, one, at + 1);
            lemma_search_agree(chain, elem, lo, mid, one, other, at + 1);
        } else {
            lemma_search_bound(chain, elem, mid + 1, hi, one, at + 1);
            lemma_search_agree(chain, elem, mid + 1, hi, one, other, at + 1);
        }
    }
}

/// Insertions that ended on one list of answers end the same way on every
/// list that holds the same answers where they were read.
pub proof fn lemma_insert_from_agree(
    chain: Seq<usize>,
    waiting: Seq<(usize, Option<usize>)>,
    schedule: Seq<usize>,
    idx: int,
    lo: int,
    hi: int,
    one: Seq<bool>,
    other: Seq<bool>,
    at: int,
)
    requires
        0 <= idx < schedule.len(),
        0 <= lo <= hi <= chain.len(),
        0 <= at <= one.len(),
        insert_from(chain, waiting, schedule, idx, lo, hi, one, at) matches Outcome::Sorted {
            order,
            next,
        } && next <= other.len() && agree_on(one, other, at, next),
    ensures
        insert_from(chain, waiting, schedule, idx, lo, hi, other, at) == insert_from(
            chain,
            waiting,
            schedule,
            idx,
            lo,
            hi,
            one,
            at,
        ),
    decreases schedule.len() - idx, 0int,
{
    let elem = waiting[schedule[idx] as int].0;
    lemma_search_bound(chain, elem, lo, hi, one, at);
    match search(chain, elem, lo, hi, one, at) {
        Probe::Asks { a, b } => {},
        Probe::Found { pos, next } => {
            let longer = chain.insert(pos, elem);
            lemma_insert_rest_bound(longer, waiting, schedule, idx + 1, one, next);
            lemma_search_agree(chain, elem, lo, hi, one, other, at);
            lemma_insert_rest_agree(longer, waiting, schedule, idx + 1, one, other, next);
        },
    }
}

/// Insertions that ended on one list of answers end the same way on every
/// list that holds the same answers where they were read.
pub proof fn lemma_insert_rest_agree(
    chain: Seq<usize>,
    waiting: Seq<(usize, Option<usize>)>,
    schedule: Seq<usize>,
    idx: int,
    one: Seq<bool>,
    other: Seq<bool>,
    at: int,
)
    requires
        0 <= idx <= schedule.len(),
        0 <= at <= one.len(),
        insert_rest(chain, waiting, schedule, idx, one, at) matches Outcome::Sorted { order, next }
            && next <= other.len() && agree_on(one, other, at, next),
    ensures
        insert_rest(chain, waiting, schedule, idx, other, at) == insert_rest(
            chain,
            waiting,
            schedule,
            idx,
            one,
            at,
        ),
    decreases schedule.len() - idx, 1int,
{
    if idx < schedule.len() {
        let main = waiting[schedule[idx] as int].1;
        if main is Some {
            lemma_position_range(chain, main->0);
        }
        lemma_insert_from_agree(
            chain,
            waiting,
            schedule,
            idx,
            0,
            bound_of(chain, main),
            one,
            other,
            at,
        );
    }
}

/// A run that ended on one list of answers ends the same way on every list
/// that holds the same answers where the run read them.
pub proof fn lemma_sort_agree(e: Seq<usize>, one: Seq<bool>, other: Seq<bool>, at: int)
    requires
        e.len() <= usize::MAX,
        0 <= at <= one.len(),
        sort(e, one, at) matches Outcome::Sorted { order, next } && next <= other.len() && agree_on(
            one,
            other,
            at,
            next,
        ),
    ensures
        sort(e, other, at) == sort(e, one, at),
    decreases e.len(),
{
    let pairs = (e.len() / 2) as int;
    if e.len() >= 2 {
        let mains = mains_of(e, one, at, pairs);
        lemma_sort_bound(mains, one, at + pairs);
        match sort(mains, one, at + pairs) {
            Outcome::Asks { a, b } => {},
            Outcome::Sorted { order: sm, next: n1 } => {
                let partner = partners_of(e, one, at, pairs);
                let waiting = waiting_list(partner, sm, straggler_of(e));
                let schedule = jacobsthal_seq(waiting.len());
                let chain = seed_chain(partner, sm);
                lemma_jacobsthal_seq_is_arrangement(waiting.len());
                lemma_insert_rest_bound(chain, waiting, schedule, 0, one, n1);
                assert(mains_of(e, other, at, pairs) =~= mains);
                lemma_partners_agree(e, one, other, at, pairs);
                lemma_sort_agree(mains, one, other, at + pairs);
                lemma_insert_rest_agree(chain, waiting, schedule, 0, one, other, n1);
            },
        }
    }
}

/// The answer to the question that a run waits on is read by the run: if
/// the run ends on the longer list, it has read all of it.
pub proof fn lemma_answer_used(e: Seq<usize>, answers: Seq<bool>, answer: bool)
    requires
        e.len() <= usize::MAX,
        sort(e, answers, 0) is Asks,
    ensures
        sort(e, answers.push(answer), 0) matches Outcome::Sorted { order, next } ==> next
            == answers.len() + 1,
{
    let longer = answers.push(answer);
    lemma_sort_bound(e, longer, 0);
    match sort(e, longer, 0) {
        Outcome::Sorted { order, next } => {
            if next <= answers.len() {
                lemma_sort_agree(e, longer, answers, 0);
            }
        },
        Outcome::Asks { a, b } => {},
    }
}

/// A search on answers that agree with the order finds the place where the
/// chain's elements up to the bound change from "not after the element" to
/// "after the element".
pub proof fn lemma_search_ranked(
    chain: Seq<usize>,
    elem: usize,
    lo: int,
    hi: int,
    bound: int,
    answers: Seq<bool>,
    at: int,
    rel: spec_fn(usize, usize) -> bool,
)
    requires
        is_weak_order(rel),
        ranked(chain, rel),
        0 <= lo <= hi <= bound <= chain.len(),
        0 <= at <= answers.len(),
        forall|i: int| 0 <= i < lo ==> !rel(elem, #[trigger] chain[i]),
        forall|i: int| hi <= i < bound ==> rel(elem, #[trigger] chain[i]),
        search_agrees(chain, elem, lo, hi, answers, at, rel),
    ensures
        search(chain, elem, lo, hi, answers, at) matches Probe::Found { pos, next } ==> (forall|
            i: int,
        |
            0 <= i < pos ==> !rel(elem, #[trigger] chain[i])) && (forall|i: int|
            pos <= i < bound ==> rel(elem, #[trigger] chain[i])),
    decreases hi - lo,
{
    if lo < hi && at < answers.len() {
        let mid = midpoint(lo, hi);
        assert(answers.take(at).len() == at);
        assert(search(chain, elem, lo, hi, answers.take(at), at) == (Probe::Asks {
            a: elem,
            b: chain[mid],
        }));
        assert(answers[at] == rel(elem, chain[mid]));
        let (lo2, hi2) = if answers[at] {
            (lo, mid)
        } else {
            (mid + 1, hi)
        };
        assert forall|k: int| at + 1 <= k < answers.len() implies (#[trigger] search(
            chain,
            elem,
            lo2,
            hi2,
            answers.take(k),
            at + 1,
        ) matches Probe::Asks { a, b } ==> answers[k] == rel(a, b)) by {
            assert(answers.take(k)[at] == answers[at]);
            assert(search(chain, elem, lo, hi, answers.take(k), at) == search(
                chain,
                elem,
                lo2,
                hi2,
                answers.take(k),
                at + 1,
            ));
        }
        if answers[at] {
            assert forall|i: int| mid <= i < bound implies rel(elem, #[trigger] chain[i]) by {
                if mid < i < hi {
                    assert(!rel(chain[i], chain[mid]));
                    lemma_before(rel, elem, chain[mid], chain[i]);
                }
            }
        } else {
            assert forall|i: int| 0 <= i < mid + 1 implies !rel(elem, #[trigger] chain[i]) by {
                if lo <= i < mid {
                    assert(!rel(chain[mid], chain[i]));
                    lemma_not_before(rel, elem, chain[mid], chain[i]);
                }
            }
        }
        lemma_search_ranked(chain, elem, lo2, hi2, bound, answers, at + 1, rel);
    }
}

/// Putting an element where the chain changes from "not after it" to
/// "after it" keeps the chain ranked.
pub proof fn lemma_insert_ranked(
    chain: Seq<usize>,
    pos: int,
    bound: int,
    elem: usize,
    rel: spec_fn(usize, usize) -> bool,
)
    requires
        is_weak_order(rel),
        ranked(chain, rel),
        0 <= pos <= bound <= chain.len(),
        forall|i: int| 0 <= i < pos ==> !rel(elem, #[trigger] chain[i]),
        forall|i: int| pos <= i < bound ==> rel(elem, #[trigger] chain[i]),
        bound < chain.len() ==> !rel(chain[bound], elem),
    ensures
        ranked(chain.insert(pos, elem), rel),
{
    let out = chain.insert(pos, elem);
    assert forall|i: int, j: int| 0 <= i < j < out.len() implies !rel(
        #[trigger] out[j],
        #[trigger] out[i],
    ) by {
        if j < pos {
            assert(out[i] == chain[i] && out[j] == chain[j]);
        } else if j == pos {
            assert(out[i] == chain[i]);
        } else {
            assert(out[j] == chain[j - 1]);
            if i < pos {
                assert(out[i] == chain[i]);
            } else if i > pos {
                assert(out[i] == chain[i - 1]);
            } else {
                if j - 1 < bound {
                    assert(rel(elem, chain[j - 1]));
                } else if j - 1 > bound {
                    assert(!rel(chain[j - 1], chain[bound]));
                    lemma_not_before(rel, chain[j - 1], chain[bound], elem);
                }
            }
        }
    }
}

/// Insertions on answers that agree with the order keep a ranked chain
/// ranked.
pub proof fn lemma_insert_rest_ranked(
    chain: Seq<usize>,
    waiting: Seq<(usize, Option<usize>)>,
    schedule: Seq<usize>,
    idx: int,
    answers: Seq<bool>,
    at: int,
    rel: spec_fn(usize, usize) -> bool,
)
    requires
        is_weak_order(rel),
        ranked(chain, rel),
        bounds_hold(chain, waiting, rel),
        forall|j: int| 0 <= j < schedule.len() ==> (#[trigger] schedule[j]) < waiting.len(),
        0 <= idx <= schedule.len(),
        0 <= at <= answers.len(),
        insertions_agree(chain, waiting, schedule, idx, answers, at, rel),
    ensures
        insert_rest(chain, waiting, schedule, idx, answers, at) matches Outcome::Sorted {
            order,
            next,
        } ==> ranked(order, rel),
    decreases schedule.len() - idx,
{
    if idx < schedule.len() {
        let entry = waiting[schedule[idx] as int];
        let elem = entry.0;
        let bound = bound_of(chain, entry.1);
        if entry.1 is Some {
            lemma_position_found(chain, entry.1->0);
        }
        assert forall|k: int| at <= k < answers.len() implies (#[trigger] search(
            chain,
            elem,
            0,
            bound,
            answers.take(k),
            at,
        ) matches Probe::Asks { a, b } ==> answers[k] == rel(a, b)) by {
            let cut = answers.take(k);
            assert(insert_rest(chain, waiting, schedule, idx, cut, at) == insert_from(
                chain,
                waiting,
                schedule,
                idx,
                0,
                bound,
                cut,
                at,
            ));
        }
        lemma_search_ranked(chain, elem, 0, bound, bound, answers, at, rel);
        lemma_search_bound(chain, elem, 0, bound, answers, at);
        match search(chain, elem, 0, bound, answers, at) {
            Probe::Asks { a, b } => {},
            Probe::Found { pos, next } => {
                let longer = chain.insert(pos, elem);
                lemma_insert_ranked(chain, pos, bound, elem, rel);
                lemma_insert_keeps(chain, pos, elem);
                assert forall|k: int| next <= k < answers.len() implies (#[trigger] insert_rest(
                    longer,
                    waiting,
                    schedule,
                    idx + 1,
                    answers.take(k),
                    next,
                ) matches Outcome::Asks { a, b } ==> answers[k] == rel(a, b)) by {
                    let cut = answers.take(k);
                    lemma_search_agree(chain, elem, 0, bound, answers, cut, at);
                    assert(insert_rest(chain, waiting, schedule, idx, cut, at) == insert_rest(
                        longer,
                        waiting,
                        schedule,
                        idx + 1,
                        cut,
                        next,
                    ));
                }
                lemma_insert_rest_ranked(longer, waiting, schedule, idx + 1, answers, next, rel);
            },
        }
    }
}

/// A run on a list without repeats, on answers that agree with a strict
/// weak ordering, ends with the elements ranked by that ordering.
pub proof fn lemma_sort_ranked(
    e: Seq<usize>,
    answers: Seq<bool>,
    at: int,
    rel: spec_fn(usize, usize) -> bool,
)
    requires
        is_weak_order(rel),
        e.no_duplicates(),
        e.len() <= usize::MAX,
        0 <= at <= answers.len(),
        answers_agree(e, answers, at, rel),
    ensures
        sort(e, answers, at) matches Outcome::Sorted { order, next } ==> ranked(order, rel),
    decreases e.len(),
{
    let pairs = (e.len() / 2) as int;
    if e.len() >= 2 && answers.len() >= at + pairs {
        let mains = mains_of(e, answers, at, pairs);
        let partner = partners_of(e, answers, at, pairs);
        lemma_mains(e, answers, at, pairs);
        lemma_partners(e, answers, at, pairs);
        // each main fails to rank before its partner
        assert forall|i: int| 0 <= i < pairs implies !rel(
            #[trigger] mains[i],
            partner[mains[i] as int],
        ) by {
            let cut = answers.take(at + i);
            assert(sort(e, cut, at) == (Outcome::Asks { a: e[2 * i], b: e[2 * i + 1] }));
            assert(answers[at + i] == rel(e[2 * i], e[2 * i + 1]));
            assert(mains[i] == loser(e, i, answers[at + i]));
            assert(partner[mains[i] as int] == winner(e, i, answers[at + i]));
        }
        // the answers to the run on the mains agree with the order
        assert forall|k: int| at + pairs <= k < answers.len() implies (#[trigger] sort(
            mains,
            answers.take(k),
            at + pairs,
        ) matches Outcome::Asks { a, b } ==> answers[k] == rel(a, b)) by {
            let cut = answers.take(k);
            assert(mains_of(e, cut, at, pairs) =~= mains);
            if sort(mains, cut, at + pairs) is Asks {
                assert(sort(e, cut, at) == sort(mains, cut, at + pairs));
            }
        }
        lemma_sort_bound(mains, answers, at + pairs);
        lemma_sort_rearranges(mains, answers, at + pairs);
        lemma_sort_ranked(mains, answers, at + pairs, rel);
        match sort(mains, answers, at + pairs) {
            Outcome::Asks { a, b } => {},
            Outcome::Sorted { order: sm, next: n1 } => {
                let waiting = waiting_list(partner, sm, straggler_of(e));
                let schedule = jacobsthal_seq(waiting.len());
                let chain = seed_chain(partner, sm);
                lemma_jacobsthal_seq_is_arrangement(waiting.len());
                // a sorted main fails to rank before its partner
                assert forall|k: int| 0 <= k < sm.len() implies !rel(
                    #[trigger] sm[k],
                    partner[sm[k] as int],
                ) by {
                    assert(sm.contains(sm[k]));
                    assert(mains.contains(sm[k]));
                    let i = choose|i: int| 0 <= i < mains.len() && mains[i] == sm[k];
                    assert(!rel(mains[i], partner[mains[i] as int]));
                }
                assert(ranked(chain, rel)) by {
                    assert forall|i: int, j: int| 0 <= i < j < chain.len() implies !rel(
                        #[trigger] chain[j],
                        #[trigger] chain[i],
                    ) by {
                        assert(chain[j] == sm[j - 1]);
                        if i == 0 {
                            assert(chain[0] == partner[sm[0] as int]);
                            if j > 1 {
                                assert(!rel(sm[j - 1], sm[0]));
                                lemma_not_before(rel, sm[j - 1], sm[0], partner[sm[0] as int]);
                            }
                        } else {
                            assert(chain[i] == sm[i - 1]);
                        }
                    }
                }
                assert(bounds_hold(chain, waiting, rel)) by {
                    assert forall|i: int| 0 <= i < waiting.len() implies ((
                    #[trigger] waiting[i]).1 matches Some(m) ==> chain.contains(m) && !rel(
                        m,
                        waiting[i].0,
                    )) by {
                        if i < sm.len() - 1 {
                            assert(waiting[i] == (partner[sm[i + 1] as int], Some(sm[i + 1])));
                            assert(chain[i + 2] == sm[i + 1]);
                        } else {
                            assert(waiting[i] == (e.last(), None::<usize>));
                        }
                    }
                }
                assert forall|k: int| n1 <= k < answers.len() implies (#[trigger] insert_rest(
                    chain,
                    waiting,
                    schedule,
                    0,
                    answers.take(k),
                    n1,
                ) matches Outcome::Asks { a, b } ==> answers[k] == rel(a, b)) by {
                    let cut = answers.take(k);
                    assert(mains_of(e, cut, at, pairs) =~= mains);
                    lemma_partners_agree(e, answers, cut, at, pairs);
                    lemma_sort_agree(mains, answers, cut, at + pairs);
                    assert(sort(e, cut, at) == insert_rest(chain, waiting, schedule, 0, cut, n1));
                }
                lemma_insert_rest_ranked(chain, waiting, schedule, 0, answers, n1, rel);
            },
        }
    }
}

/// A run on the items `0 .. n`, on answers that agree with a strict weak
/// ordering of the items, ends with the items ranked by that ordering.
pub proof fn lemma_rank_ranked(n: nat, answers: Seq<bool>, rel: spec_fn(usize, usize) -> bool)
    requires
        n <= usize::MAX,
        is_weak_order(rel),
        answers_agree(iota(n), answers, 0, rel),
    ensures
        rank(n, answers) matches Outcome::Sorted { order, next } ==> ranked(order, rel),
{
    lemma_sort_ranked(iota(n), answers, 0, rel);
}

/// A strict weak ordering of items is a weak order of their indices.
pub proof fn lemma_index_relation<T, F: FnMut(&T, &T) -> bool>(better: F, items: Seq<T>)
    requires
        is_strict_weak_order(better),
    ensures
        is_weak_order(index_relation(better, items)),
{
    let rel = index_relation(better, items);
    assert forall|a: usize, b: usize| #[trigger] rel(a, b) implies !rel(b, a) by {
        let x = &items[a as int];
        let y = &items[b as int];
        if ranks_before(better, y, x) {
            assert(ranks_before(better, x, y) && ranks_before(better, y, x));
            assert(ranks_before(better, x, x));
        }
    }
    assert forall|a: usize, b: usize, c: usize|
        #![trigger rel(a, b), rel(b, c)]
        !rel(a, b) && !rel(b, c) implies !rel(a, c) by {
        let x = &items[a as int];
        let y = &items[b as int];
        let z = &items[c as int];
        if ranks_before(better, x, z) {
            if ranks_before(better, y, x) {
                assert(ranks_before(better, y, x) && ranks_before(better, x, z));
                assert(ranks_before(better, y, z));
            } else if ranks_before(better, z, y) {
                assert(ranks_before(better, x, z) && ranks_before(better, z, y));
                assert(ranks_before(better, x, y));
            } else {
                assert(tied(better, x, y) && tied(better, y, z));
                assert(tied(better, x, z));
            }
        }
    }
}

} // verus!
