//! The merge-insertion sort, run against a comparator.

use vstd::prelude::*;
use crate::comparator::{
    answers_all, index_relation, is_decided, is_ranked, is_strict_weak_order, may_answer,
    ranks_before,
};
use crate::ordering::{answers_agree, lemma_index_relation, lemma_sort_ranked, ranked};
use crate::estimate::spec_estimate_turns;
use crate::jacobsthal::{
    is_arrangement, jacobsthal_order, jacobsthal_seq, lemma_jacobsthal_seq_is_arrangement,
};
use crate::progress::{
    completes, lemma_completes_now, lemma_inserting_ends, lemma_merge_entry, lemma_pair_answered,
    lemma_pairs_settled, lemma_search_done, lemma_short_completes, resumes_inserting,
    search_completes,
};
use crate::rearrange::{
    insertable, is_rearrangement, lemma_full_cover_rearranges, lemma_insert_insertable,
    lemma_largest, lemma_mains, lemma_partners, lemma_seed_insertable, lemma_sort_rearranges,
};
use crate::transcript::{
    bound_of, insert_rest, iota, largest, lemma_sort_bound, loser, mains_of, midpoint,
    partners_of, position, rank, search, seed_chain, sort, straggler_of, waiting_list, winner,
    Outcome, Probe,
};

verus! {

/// `outcome` is a question, and `answer` is what `better` may say to it.
pub open spec fn heard<T, F: FnMut(&T, &T) -> bool>(
    better: F,
    items: Seq<T>,
    outcome: Outcome,
    answer: bool,
) -> bool {
    outcome matches Outcome::Asks { a, b } && a < items.len() && b < items.len() && may_answer(
        better,
        &items[a as int],
        &items[b as int],
        answer,
    )
}

/// `probe` is a question, and `answer` is what `better` may say to it.
pub open spec fn heard_in_search<T, F: FnMut(&T, &T) -> bool>(
    better: F,
    items: Seq<T>,
    probe: Probe,
    answer: bool,
) -> bool {
    probe matches Probe::Asks { a, b } && a < items.len() && b < items.len() && may_answer(
        better,
        &items[a as int],
        &items[b as int],
        answer,
    )
}

/// An element that stands at `k` with nothing like it before stands first
/// at `k`.
pub proof fn lemma_position_first(chain: Seq<usize>, x: usize, k: int)
    requires
        0 <= k < chain.len(),
        chain[k] == x,
        forall|j: int| 0 <= j < k ==> chain[j] != x,
    ensures
        position(chain, x) == k,
    decreases k,
{
    if k > 0 {
        assert(chain[0] != x);
        let rest = chain.drop_first();
        assert forall|j: int| 0 <= j < k - 1 implies rest[j] != x by {
            assert(rest[j] == chain[j + 1]);
        }
        lemma_position_first(rest, x, k - 1);
    }
}

/// Finds the largest element, or 0 if there is none.
pub(crate) fn largest_of(elements: &Vec<usize>) -> (max_elem: usize)
    ensures
        max_elem == largest(elements@),
{
    let mut max_elem: usize = 0;
    let mut i: usize = 0;
    while i < elements.len()
        invariant
            i <= elements.len(),
            max_elem == largest(elements@.take(i as int)),
        decreases elements.len() - i,
    {
        assert(elements@.take(i + 1).drop_last() == elements@.take(i as int));
        if elements[i] > max_elem {
            max_elem = elements[i];
        }
        i += 1;
    }
    assert(elements@.take(elements.len() as int) == elements@);
    max_elem
}

/// Finds where `main` stands in `chain`.
pub(crate) fn position_of(chain: &Vec<usize>, main: usize) -> (pos: usize)
    requires
        chain@.contains(main),
    ensures
        pos == position(chain@, main),
        pos < chain.len(),
{
    let mut pos: usize = 0;
    while chain[pos] != main
        invariant
            pos < chain.len(),
            chain@.contains(main),
            forall|j: int| 0 <= j < pos ==> chain[j] != main,
        decreases chain.len() - pos,
    {
        pos += 1;
    }
    proof {
        lemma_position_first(chain@, main, pos as int);
    }
    pos
}

/// Binary search for the place of `element` among the first `bound`
/// elements of `chain`, asking `better` about the items behind the
/// indices.
///
/// `heard_so_far` is the list of answers given before the call; the result
/// carries the list with the answers of this search added.  On that list,
/// and on any longer one, the search of the transcript comes to the
/// position returned, and every answer added is one that `better` gave to
/// the question the transcript asks at that point.
pub(crate) fn binary_search_pos<T, F: FnMut(&T, &T) -> bool>(
    items: &Vec<T>,
    chain: &Vec<usize>,
    bound: usize,
    element: usize,
    better: &mut F,
    Ghost(heard_so_far): Ghost<Seq<bool>>,
) -> (found: (usize, Ghost<Seq<bool>>))
    requires
        bound <= chain.len(),
        element < items.len(),
        forall|j: int| 0 <= j < chain.len() ==> chain[j] < items.len(),
        answers_all(*old(better)),
    ensures
        *final(better) == *old(better),
        found.0 <= bound,
        heard_so_far.is_prefix_of(found.1@),
        search_completes(
            chain@,
            element,
            bound as int,
            heard_so_far.len() as int,
            found.1@,
            found.0 as int,
        ),
        search_follows(
            *old(better),
            items@,
            chain@,
            element,
            bound as int,
            heard_so_far.len() as int,
            found.1@,
        ),
{
    let mut lo: usize = 0;
    let mut hi: usize = bound;
    let ghost start = heard_so_far.len() as int;
    let ghost mut log = heard_so_far;
    proof {
        assert forall|rest: Seq<bool>| #[trigger]
            search(chain@, element, 0, bound as int, log + rest, start) == search(
                chain@,
                element,
                lo as int,
                hi as int,
                log + rest,
                log.len() as int,
            ) by {}
    }
    while lo < hi
        invariant
            lo <= hi <= bound <= chain.len(),
            element < items.len(),
            forall|j: int| 0 <= j < chain.len() ==> chain[j] < items.len(),
            answers_all(*better),
            *better == *old(better),
            start == heard_so_far.len(),
            heard_so_far.is_prefix_of(log),
            forall|rest: Seq<bool>| #[trigger]
                search(chain@, element, 0, bound as int, log + rest, start) == search(
                    chain@,
                    element,
                    lo as int,
                    hi as int,
                    log + rest,
                    log.len() as int,
                ),
            forall|k: int|
                start <= k < log.len() ==> heard_in_search(
                    *better,
                    items@,
                    #[trigger] search(chain@, element, 0, bound as int, log.take(k), start),
                    log[k],
                ),
        decreases hi - lo,
    {
        let mid: usize = lo + (hi - lo) / 2;
        let answer: bool = better(&items[element], &items[chain[mid]]);
        proof {
            let longer = log.push(answer);
            // what was asked
            assert(log + Seq::<bool>::empty() == log);
            assert(search(chain@, element, 0, bound as int, log, start) == search(
                chain@,
                element,
                lo as int,
                hi as int,
                log + Seq::<bool>::empty(),
                log.len() as int,
            ));
            assert(mid == midpoint(lo as int, hi as int));
            assert forall|k: int| start <= k < longer.len() implies heard_in_search(
                *better,
                items@,
                #[trigger] search(chain@, element, 0, bound as int, longer.take(k), start),
                longer[k],
            ) by {
                if k < log.len() {
                    assert(longer.take(k) == log.take(k));
                } else {
                    assert(longer.take(k) == log);
                }
            }
            // what follows
            let (lo2, hi2) = if answer {
                (lo as int, mid as int)
            } else {
                (mid + 1, hi as int)
            };
            assert forall|rest: Seq<bool>| #[trigger]
                search(chain@, element, 0, bound as int, longer + rest, start) == search(
                    chain@,
                    element,
                    lo2,
                    hi2,
                    longer + rest,
                    longer.len() as int,
                ) by {
                let tail = seq![answer] + rest;
                assert(log + tail == longer + rest);
                assert(search(chain@, element, 0, bound as int, log + tail, start) == search(
                    chain@,
                    element,
                    lo as int,
                    hi as int,
                    log + tail,
                    log.len() as int,
                ));
                assert((log + tail)[log.len() as int] == answer);
            }
            log = longer;
        }
        if answer {
            hi = mid;
        } else {
            lo = mid + 1;
        }
    }
    (lo, Ghost(log))
}

/// Every answer of `log` from `start` on is what `better` said to the
/// question that the run on `e` asks at that point.
pub open spec fn follows<T, F: FnMut(&T, &T) -> bool>(
    better: F,
    items: Seq<T>,
    e: Seq<usize>,
    start: int,
    log: Seq<bool>,
) -> bool {
    forall|k: int|
        start <= k < log.len() ==> heard(
            better,
            items,
            #[trigger] sort(e, log.take(k), start),
            log[k],
        )
}

/// Every answer of `log` from `start` on is what `better` said to the
/// question that the search asks at that point.
pub open spec fn search_follows<T, F: FnMut(&T, &T) -> bool>(
    better: F,
    items: Seq<T>,
    chain: Seq<usize>,
    elem: usize,
    bound: int,
    start: int,
    log: Seq<bool>,
) -> bool {
    forall|k: int|
        start <= k < log.len() ==> heard_in_search(
            better,
            items,
            #[trigger] search(chain, elem, 0, bound, log.take(k), start),
            log[k],
        )
}

/// The answer to the question about the next pair is one that the run asks
/// for.
proof fn lemma_follows_pair<T, F: FnMut(&T, &T) -> bool>(
    better: F,
    items: Seq<T>,
    e: Seq<usize>,
    start: int,
    log: Seq<bool>,
    answer: bool,
)
    requires
        0 <= start <= log.len(),
        log.len() - start < e.len() / 2,
        follows(better, items, e, start, log),
        forall|j: int| 0 <= j < e.len() ==> e[j] < items.len(),
        may_answer(
            better,
            &items[e[2 * (log.len() - start)] as int],
            &items[e[2 * (log.len() - start) + 1] as int],
            answer,
        ),
    ensures
        follows(better, items, e, start, log.push(answer)),
{
    let longer = log.push(answer);
    assert forall|k: int| start <= k < longer.len() implies heard(
        better,
        items,
        #[trigger] sort(e, longer.take(k), start),
        longer[k],
    ) by {
        if k < log.len() {
            assert(longer.take(k) =~= log.take(k));
        } else {
            assert(longer.take(k) =~= log);
        }
    }
}

/// The answers that the run on the mains asked for are answers that the
/// run on the whole asks for.
proof fn lemma_follows_mains<T, F: FnMut(&T, &T) -> bool>(
    better: F,
    items: Seq<T>,
    e: Seq<usize>,
    start: int,
    paired: Seq<bool>,
    log: Seq<bool>,
)
    requires
        e.len() >= 2,
        0 <= start,
        paired.len() == start + e.len() / 2,
        paired.is_prefix_of(log),
        follows(better, items, e, start, paired),
        follows(
            better,
            items,
            mains_of(e, paired, start, (e.len() / 2) as int),
            start + e.len() / 2,
            log,
        ),
    ensures
        follows(better, items, e, start, log),
{
    let pairs = (e.len() / 2) as int;
    assert forall|k: int| start <= k < log.len() implies heard(
        better,
        items,
        #[trigger] sort(e, log.take(k), start),
        log[k],
    ) by {
        if k < paired.len() {
            assert(log.take(k) =~= paired.take(k));
            assert(log[k] == log.subrange(0, paired.len() as int)[k]);
        } else {
            let cut = log.take(k);
            assert(paired.is_prefix_of(cut)) by {
                assert(cut.subrange(0, paired.len() as int) =~= log.subrange(
                    0,
                    paired.len() as int,
                ));
            }
            lemma_pairs_settled(e, paired, cut, start, pairs);
            assert(heard(
                better,
                items,
                sort(mains_of(e, paired, start, pairs), log.take(k), start + pairs),
                log[k],
            ));
        }
    }
}

/// The answers that a search asked for are answers that the run asks for.
proof fn lemma_follows_search<T, F: FnMut(&T, &T) -> bool>(
    better: F,
    items: Seq<T>,
    e: Seq<usize>,
    start: int,
    chain: Seq<usize>,
    waiting: Seq<(usize, Option<usize>)>,
    schedule: Seq<usize>,
    idx: int,
    log: Seq<bool>,
    longer: Seq<bool>,
)
    requires
        0 <= idx < schedule.len(),
        0 <= start <= log.len(),
        log.is_prefix_of(longer),
        follows(better, items, e, start, log),
        resumes_inserting(e, start, chain, waiting, schedule, idx, log),
        search_follows(
            better,
            items,
            chain,
            waiting[schedule[idx] as int].0,
            bound_of(chain, waiting[schedule[idx] as int].1),
            log.len() as int,
            longer,
        ),
    ensures
        follows(better, items, e, start, longer),
{
    let elem = waiting[schedule[idx] as int].0;
    let bound = bound_of(chain, waiting[schedule[idx] as int].1);
    assert forall|k: int| start <= k < longer.len() implies heard(
        better,
        items,
        #[trigger] sort(e, longer.take(k), start),
        longer[k],
    ) by {
        if k < log.len() {
            assert(longer.take(k) =~= log.take(k));
            assert(longer[k] == longer.subrange(0, log.len() as int)[k]);
        } else {
            reveal(resumes_inserting);
            let tail = longer.subrange(log.len() as int, k);
            assert(log + tail =~= longer.take(k));
            assert(sort(e, log + tail, start) == insert_rest(
                chain,
                waiting,
                schedule,
                idx,
                log + tail,
                log.len() as int,
            ));
            assert(heard_in_search(
                better,
                items,
                search(chain, elem, 0, bound, longer.take(k), log.len() as int),
                longer[k],
            ));
        }
    }
}

/// Sorts the indices `elements` of `items` by merge insertion, asking
/// `better` about the items behind them.
///
/// `heard_so_far` is the list of answers given before the call; the result
/// carries the list with the answers of this sort added.  On that list, and
/// on any longer one, the run of the transcript from the end of
/// `heard_so_far` comes to the order returned, and every answer added is one
/// that `better` gave to the question the run asks at that point.
pub(crate) fn ford_johnson<T, F: FnMut(&T, &T) -> bool>(
    items: &Vec<T>,
    elements: Vec<usize>,
    better: &mut F,
    Ghost(heard_so_far): Ghost<Seq<bool>>,
) -> (sorted: (Vec<usize>, Ghost<Seq<bool>>))
    requires
        elements@.no_duplicates(),
        forall|j: int| 0 <= j < elements.len() ==> elements[j] < items.len(),
        answers_all(*old(better)),
    ensures
        *final(better) == *old(better),
        heard_so_far.is_prefix_of(sorted.1@),
        completes(elements@, heard_so_far.len() as int, sorted.1@, sorted.0@),
        follows(*old(better), items@, elements@, heard_so_far.len() as int, sorted.1@),
    decreases elements.len(),
{
    let n: usize = elements.len();
    let ghost start = heard_so_far.len() as int;
    let ghost e = elements@;
    if n <= 1 {
        proof {
            lemma_short_completes(e, heard_so_far);
        }
        return (elements, Ghost(heard_so_far));
    }
    // Pair up and compare: the loser of each pair is its main, the winner
    // its partner.
    let num_pairs: usize = n / 2;
    let max_elem: usize = largest_of(&elements);
    proof {
        lemma_largest_is_element(e);
    }
    let mut mains: Vec<usize> = Vec::with_capacity(num_pairs);
    let mut partner_of: Vec<usize> = zeros(max_elem + 1);
    let ghost mut log = heard_so_far;
    let mut i: usize = 0;
    while i < num_pairs
        invariant
            n == elements.len(),
            e == elements@,
            n >= 2,
            num_pairs == n / 2,
            i <= num_pairs,
            e.no_duplicates(),
            forall|j: int| 0 <= j < elements.len() ==> elements[j] < items.len(),
            answers_all(*better),
            *better == *old(better),
            start == heard_so_far.len(),
            heard_so_far.is_prefix_of(log),
            log.len() == start + i,
            mains@ == mains_of(e, log, start, i as int),
            partner_of@ == partners_of(e, log, start, i as int),
            partner_of.len() == largest(e) + 1,
            follows(*better, items@, e, start, log),
        decreases num_pairs - i,
    {
        let a: usize = elements[2 * i];
        let b: usize = elements[2 * i + 1];
        let answer: bool = better(&items[a], &items[b]);
        proof {
            lemma_follows_pair(*better, items@, e, start, log, answer);
            lemma_pair_answered(e, log, start, i as int, answer);
            lemma_partners(e, log.push(answer), start, i + 1);
            lemma_largest(e, 2 * i);
            lemma_largest(e, 2 * i + 1);
            assert(heard_so_far.is_prefix_of(log.push(answer))) by {
                assert(log.push(answer).subrange(0, start) =~= log.subrange(0, start));
            }
            log = log.push(answer);
        }
        if answer {
            mains.push(b);
            partner_of[b] = a;
        } else {
            mains.push(a);
            partner_of[a] = b;
        }
        i += 1;
    }
    let straggler: Option<usize> = if n % 2 == 1 {
        Some(elements[n - 1])
    } else {
        None
    };
    let ghost paired = log;
    proof {
        lemma_mains(e, paired, start, num_pairs as int);
    }

    // Sort the mains.
    let (sorted_mains, Ghost(after_mains)) = ford_johnson(items, mains, better, Ghost(log));
    proof {
        lemma_completes_now(
            mains_of(e, paired, start, num_pairs as int),
            paired.len() as int,
            after_mains,
            sorted_mains@,
        );
        lemma_sort_rearranges(mains_of(e, paired, start, num_pairs as int), after_mains, paired.len() as int);
        lemma_seed_insertable(e, paired, start, sorted_mains@, items.len() as int);
        lemma_merge_entry(e, start, paired, after_mains, sorted_mains@);
        lemma_follows_mains(*better, items@, e, start, paired, after_mains);
        assert(heard_so_far.is_prefix_of(after_mains)) by {
            assert(after_mains.subrange(0, start) =~= after_mains.subrange(0, paired.len() as int).subrange(0, start));
        }
        log = after_mains;
    }

    // Seed the chain: the partner of the best main goes in front for free.
    let mut chain: Vec<usize> = Vec::with_capacity(n);
    chain.push(partner_of[sorted_mains[0]]);
    let mut k: usize = 0;
    while k < sorted_mains.len()
        invariant
            k <= sorted_mains.len(),
            sorted_mains.len() >= 1,
            chain@ == seed_chain(partner_of@, sorted_mains@).take(k + 1),
        decreases sorted_mains.len() - k,
    {
        chain.push(sorted_mains[k]);
        k += 1;
        assert(chain@ =~= seed_chain(partner_of@, sorted_mains@).take(k + 1));
    }
    assert(chain@ =~= seed_chain(partner_of@, sorted_mains@));

    // The other partners wait, each bound to its main; the straggler waits
    // unbound.
    let mut pending: Vec<(usize, Option<usize>)> = Vec::new();
    let mut k: usize = 1;
    while k < sorted_mains.len()
        invariant
            1 <= k <= sorted_mains.len(),
            forall|j: int|
                0 <= j < sorted_mains.len() ==> (#[trigger] sorted_mains[j]) < partner_of.len(),
            pending@ == waiting_list(partner_of@, sorted_mains@, None).take(k - 1),
        decreases sorted_mains.len() - k,
    {
        let m: usize = sorted_mains[k];
        pending.push((partner_of[m], Some(m)));
        k += 1;
        assert(pending@ =~= waiting_list(partner_of@, sorted_mains@, None).take(k - 1));
    }
    if let Some(s) = straggler {
        pending.push((s, None));
    }
    assert(pending@ =~= waiting_list(partner_of@, sorted_mains@, straggler_of(e)));

    // Insert in Jacobsthal order.
    let order: Vec<usize> = jacobsthal_order(pending.len());
    proof {
        lemma_jacobsthal_seq_is_arrangement(pending.len() as nat);
    }
    let mut idx: usize = 0;
    while idx < order.len()
        invariant
            idx <= order.len(),
            order@ == jacobsthal_seq(pending.len() as nat),
            is_arrangement(order@, 0, pending.len() as int),
            chain.len() + (order.len() - idx) == n,
            insertable(items.len() as int, chain@, pending@),
            answers_all(*better),
            *better == *old(better),
            0 <= start == heard_so_far.len(),
            heard_so_far.is_prefix_of(log),
            resumes_inserting(e, start, chain@, pending@, order@, idx as int, log),
            follows(*better, items@, e, start, log),
        decreases order.len() - idx,
    {
        let i: usize = order[idx];
        let (elem, main) = pending[i];
        let bound: usize = match main {
            Some(m) => position_of(&chain, m),
            None => chain.len(),
        };
        let (pos, Ghost(longer)) = binary_search_pos(items, &chain, bound, elem, better, Ghost(log));
        proof {
            lemma_search_done(e, start, chain@, pending@, order@, idx as int, log, longer, pos as int);
            lemma_follows_search(*better, items@, e, start, chain@, pending@, order@, idx as int, log, longer);
            lemma_insert_insertable(items.len() as int, chain@, pending@, pos as int, elem);
            assert(heard_so_far.is_prefix_of(longer)) by {
                assert(longer.subrange(0, start) =~= longer.subrange(0, log.len() as int).subrange(0, start));
            }
            log = longer;
        }
        chain.insert(pos, elem);
        idx += 1;
    }
    proof {
        lemma_inserting_ends(e, start, chain@, pending@, order@, idx as int, log);
    }
    (chain, Ghost(log))
}

/// The largest element of a list that is not empty is one of its elements.
pub proof fn lemma_largest_is_element(e: Seq<usize>)
    requires
        e.len() > 0,
    ensures
        e.contains(largest(e)),
    decreases e.len(),
{
    if e.len() == 1 {
        assert(largest(e.drop_last()) == 0);
        assert(e[0] == largest(e));
    } else {
        lemma_largest_is_element(e.drop_last());
        if e.last() > largest(e.drop_last()) {
            assert(e[e.len() - 1] == largest(e));
        } else {
            let j = choose|j: int| 0 <= j < e.drop_last().len() && e.drop_last()[j] == largest(e.drop_last());
            assert(e[j] == largest(e));
        }
    }
}

/// A table of `len` zeros.
pub(crate) fn zeros(len: usize) -> (table: Vec<usize>)
    ensures
        table@ == Seq::new(len as nat, |j: int| 0usize),
{
    let table: Vec<usize> = vec![0usize; len];
    assert(table@ =~= Seq::new(len as nat, |j: int| 0usize));
    table
}

/// The items in the order that their indices are given in.
pub open spec fn arranged<T>(items: Seq<T>, order: Seq<usize>) -> Seq<T> {
    Seq::new(order.len(), |k: int| items[order[k] as int])
}

/// `ranked` is what a run of the sort makes of `items` on the answers
/// `answers`: the run reads them all, each is what `better` said to the
/// question asked at that point, and there are no more of them than the
/// estimate allows.
pub open spec fn is_record<T, F: FnMut(&T, &T) -> bool>(
    better: F,
    items: Seq<T>,
    answers: Seq<bool>,
    ranked: Seq<T>,
) -> bool {
    &&& answers.len() <= spec_estimate_turns(items.len())
    &&& follows(better, items, iota(items.len()), 0, answers)
    &&& rank(items.len(), answers) matches Outcome::Sorted { order, next } && next
        == answers.len() && ranked == arranged(items, order)
}

/// Items taken in the order of a rearrangement of their indices are the
/// same items, each as often as before.
pub proof fn lemma_arranged_multiset<T>(items: Seq<T>, order: Seq<usize>)
    requires
        items.len() <= usize::MAX,
        is_rearrangement(order, iota(items.len())),
    ensures
        arranged(items, order).to_multiset() == items.to_multiset(),
    decreases items.len(),
{
    broadcast use vstd::seq_lib::group_to_multiset_ensures;

    let out = arranged(items, order);
    if items.len() == 0 {
        assert(out =~= items);
    } else {
        let n = items.len();
        let last = (n - 1) as usize;
        assert(iota(n)[n - 1] == last);
        assert(order.contains(last));
        let k0 = choose|k: int| 0 <= k < order.len() && order[k] == last;
        let fewer = order.remove(k0);
        let front = items.drop_last();
        assert forall|x: usize| iota((n - 1) as nat).contains(x) implies fewer.contains(x) by {
            assert(iota(n)[x as int] == x);
            assert(order.contains(x));
            let k = choose|k: int| 0 <= k < order.len() && order[k] == x;
            if k < k0 {
                assert(fewer[k] == x);
            } else {
                assert(fewer[k - 1] == x);
            }
        }
        assert(iota((n - 1) as nat).no_duplicates());
        lemma_full_cover_rearranges(fewer, iota((n - 1) as nat));
        lemma_arranged_multiset(front, fewer);
        let small = iota((n - 1) as nat);
        assert forall|k: int| 0 <= k < fewer.len() implies fewer[k] < n - 1 by {
            assert(fewer.contains(fewer[k]));
            let j = choose|j: int| 0 <= j < small.len() && small[j] == fewer[k];
        }
        assert(out.remove(k0) =~= arranged(front, fewer));
        assert(out[k0] == items.last());
        assert(items =~= front.push(items.last()));
        assert(out.to_multiset().count(items.last()) > 0) by {
            assert(out.contains(items.last()));
        }
        assert(out.to_multiset() =~= out.remove(k0).to_multiset().insert(items.last()));
    }
}

/// Answers that a decided comparator gave agree with its ranking.
proof fn lemma_follows_agrees<T, F: FnMut(&T, &T) -> bool>(
    better: F,
    items: Seq<T>,
    e: Seq<usize>,
    log: Seq<bool>,
)
    requires
        is_decided(better),
        follows(better, items, e, 0, log),
    ensures
        answers_agree(e, log, 0, index_relation(better, items)),
{
    let rel = index_relation(better, items);
    assert forall|k: int| 0 <= k < log.len() implies (#[trigger] sort(e, log.take(k), 0)
        matches Outcome::Asks { a, b } ==> log[k] == rel(a, b)) by {
        assert(heard(better, items, sort(e, log.take(k), 0), log[k]));
    }
}

/// Ranks `items` by merge insertion, which asks `better` few questions:
/// `better(a, b)` says whether `a` ranks before `b`.
///
/// The result holds the items given, each as often as before.  Where
/// `better` is a strict weak ordering, no item of the result ranks before an
/// item that stands earlier in it.  And the result is the record of a run of
/// the sort: there is a list of answers, no longer than
/// `spec_estimate_turns(items.len())`, each of them given by `better` to the
/// question that the run asks at that point, on which the run ends with the
/// items in this order.
pub fn rank_items<T, F>(items: Vec<T>, mut better: F) -> (ranked: Vec<T>) where
    F: FnMut(&T, &T) -> bool,

    requires
        answers_all(better),
    ensures
        ranked@.to_multiset() == items@.to_multiset(),
        is_strict_weak_order(better) ==> is_ranked(ranked@, better),
        exists|answers: Seq<bool>| is_record(better, items@, answers, ranked@),
{
    let n: usize = items.len();
    let ghost given = items@;
    if n <= 1 {
        proof {
            assert(arranged(given, iota(n as nat)) =~= given);
            assert(is_record(better, given, Seq::<bool>::empty(), given));
        }
        return items;
    }
    let mut indices: Vec<usize> = Vec::with_capacity(n);
    let mut i: usize = 0;
    while i < n
        invariant
            i <= n,
            indices@ == iota(i as nat),
        decreases n - i,
    {
        indices.push(i);
        i += 1;
        assert(indices@ =~= iota(i as nat));
    }
    let (sorted, Ghost(log)) = ford_johnson(&items, indices, &mut better, Ghost(Seq::empty()));
    proof {
        let e = iota(n as nat);
        lemma_completes_now(e, 0, log, sorted@);
        lemma_sort_bound(e, log, 0);
        lemma_sort_rearranges(e, log, 0);
        lemma_arranged_multiset(given, sorted@);
        assert(is_record(better, given, log, arranged(given, sorted@)));
        if is_strict_weak_order(better) {
            let rel = index_relation(better, given);
            lemma_index_relation(better, given);
            lemma_follows_agrees(better, given, e, log);
            lemma_sort_ranked(e, log, 0, rel);
            assert(is_ranked(arranged(given, sorted@), better)) by {
                let out = arranged(given, sorted@);
                assert forall|i: int, j: int| 0 <= i < j < out.len() implies !ranks_before(
                    better,
                    &out[j],
                    &out[i],
                ) by {
                    assert(!rel(sorted@[j], sorted@[i]));
                }
            }
        }
        assert forall|k: int| 0 <= k < sorted.len() implies sorted[k] < n by {
            assert(sorted@.contains(sorted[k]));
            let j = choose|j: int| 0 <= j < n && e[j] == sorted[k];
        }
    }

    // Move the items out: slot `n - 1 - i` holds item `i` until it is taken.
    let mut slots: Vec<Option<T>> = Vec::with_capacity(n);
    let mut rest: Vec<T> = items;
    while rest.len() > 0
        invariant
            rest.len() + slots.len() == n == given.len(),
            rest@ == given.take(rest.len() as int),
            forall|j: int| 0 <= j < slots.len() ==> slots[j] == Some(given[n - 1 - j]),
        decreases rest.len(),
    {
        let ghost before = rest@;
        let item: T = rest.pop().unwrap();
        assert(item == before[before.len() - 1]);
        assert(rest@ =~= given.take(rest.len() as int));
        slots.push(Some(item));
    }
    let mut ranked: Vec<T> = Vec::with_capacity(n);
    let mut k: usize = 0;
    while k < sorted.len()
        invariant
            k <= sorted.len() == n == slots.len() == given.len(),
            sorted@.no_duplicates(),
            forall|j: int| 0 <= j < sorted.len() ==> sorted[j] < n,
            ranked@ == arranged(given, sorted@.take(k as int)),
            forall|j: int|
                k <= j < sorted.len() ==> slots[n - 1 - sorted[j]] == Some(
                    given[sorted[j] as int],
                ),
        decreases sorted.len() - k,
    {
        let i: usize = sorted[k];
        let item: T = slots[n - 1 - i].take().unwrap();
        ranked.push(item);
        k += 1;
        assert(ranked@ =~= arranged(given, sorted@.take(k as int)));
    }
    assert(sorted@.take(n as int) =~= sorted@);
    ranked
}

} // verus!
