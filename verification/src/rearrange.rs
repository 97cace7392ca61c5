//! A run of the sort hands back the elements it was given, each once.

use vstd::prelude::*;
use crate::jacobsthal::{jacobsthal_seq, lemma_jacobsthal_seq_is_arrangement};
use crate::transcript::{
    bound_of, insert_from, insert_rest, iota, largest, lemma_insert_rest_bound,
    lemma_position_range, lemma_search_bound, lemma_sort_bound, loser, mains_of, partners_of, rank,
    search, seed_chain, sort, straggler_of, waiting_list, winner, Outcome, Probe,
};

verus! {

/// `out` holds the elements of `e` and no others, and none of them twice.
pub open spec fn is_rearrangement(out: Seq<usize>, e: Seq<usize>) -> bool {
    &&& out.len() == e.len()
    &&& out.no_duplicates()
    &&& forall|x: usize| out.contains(x) <==> e.contains(x)
}

/// A list as long as a list without repeats, and holding all its elements,
/// is a rearrangement of it.
pub proof fn lemma_full_cover_rearranges(out: Seq<usize>, e: Seq<usize>)
    requires
        e.no_duplicates(),
        out.len() == e.len(),
        forall|x: usize| e.contains(x) ==> out.contains(x),
    ensures
        is_rearrangement(out, e),
{
    broadcast use vstd::seq_lib::seq_to_set_is_finite;

    e.unique_seq_to_set();
    out.lemma_cardinality_of_set();
    assert(e.to_set().subset_of(out.to_set())) by {
        assert forall|x: usize| e.to_set().contains(x) implies out.to_set().contains(x) by {
            assert(e.contains(x));
        }
    }
    vstd::set_lib::lemma_len_subset(e.to_set(), out.to_set());
    vstd::set_lib::lemma_subset_equality(e.to_set(), out.to_set());
    out.lemma_no_dup_set_cardinality();
    assert forall|x: usize| out.contains(x) implies e.contains(x) by {
        assert(out.to_set().contains(x));
        assert(e.to_set().contains(x));
    }
}

/// A rearrangement of a list without repeats holds every element as often
/// as the list does.
pub proof fn lemma_rearrangement_multiset(out: Seq<usize>, e: Seq<usize>)
    requires
        e.no_duplicates(),
        is_rearrangement(out, e),
    ensures
        out.to_multiset() == e.to_multiset(),
{
    broadcast use vstd::seq_lib::group_to_multiset_ensures;

    out.lemma_multiset_has_no_duplicates();
    e.lemma_multiset_has_no_duplicates();
    assert forall|x: usize| out.to_multiset().count(x) == e.to_multiset().count(x) by {
        if out.contains(x) {
            assert(e.contains(x));
            assert(out.to_multiset().contains(x));
            assert(e.to_multiset().contains(x));
        } else {
            assert(!e.contains(x));
            assert(out.to_multiset().count(x) == 0);
            assert(e.to_multiset().count(x) == 0);
        }
    }
    assert(out.to_multiset() =~= e.to_multiset());
}

/// No element is above the largest.
pub proof fn lemma_largest(e: Seq<usize>, j: int)
    requires
        0 <= j < e.len(),
    ensures
        e[j] <= largest(e),
    decreases e.len(),
{
    if j < e.len() - 1 {
        lemma_largest(e.drop_last(), j);
    }
}

/// The mains of the pairs of a list without repeats are elements of the
/// list, and none of them occurs twice.
pub proof fn lemma_mains(e: Seq<usize>, answers: Seq<bool>, at: int, k: int)
    requires
        e.no_duplicates(),
        0 <= k,
        2 * k <= e.len(),
    ensures
        mains_of(e, answers, at, k).len() == k,
        mains_of(e, answers, at, k).no_duplicates(),
        forall|i: int|
            0 <= i < k ==> e.contains(#[trigger] mains_of(e, answers, at, k)[i]) && mains_of(
                e,
                answers,
                at,
                k,
            )[i] <= largest(e),
{
    let mains = mains_of(e, answers, at, k);
    assert forall|i: int| 0 <= i < k implies e.contains(#[trigger] mains[i]) && mains[i]
        <= largest(e) by {
        let j = if answers[at + i] {
            2 * i + 1
        } else {
            2 * i
        };
        assert(e[j] == mains[i]);
        lemma_largest(e, j);
    }
}

/// After the first `k` pairs of a list without repeats, the partner table
/// holds the partner of each of their mains.
pub proof fn lemma_partners(e: Seq<usize>, answers: Seq<bool>, at: int, k: int)
    requires
        e.no_duplicates(),
        0 <= k,
        2 * k <= e.len(),
    ensures
        partners_of(e, answers, at, k).len() == largest(e) + 1,
        forall|i: int|
            0 <= i < k ==> partners_of(e, answers, at, k)[#[trigger] loser(
                e,
                i,
                answers[at + i],
            ) as int] == winner(e, i, answers[at + i]),
    decreases k,
{
    if k > 0 {
        lemma_partners(e, answers, at, k - 1);
        let last = loser(e, k - 1, answers[at + k - 1]);
        let j = if answers[at + k - 1] {
            2 * (k - 1) + 1
        } else {
            2 * (k - 1)
        };
        assert(e[j] == last);
        lemma_largest(e, j);
        let before = partners_of(e, answers, at, k - 1);
        let after = partners_of(e, answers, at, k);
        assert(after == before.update(last as int, winner(e, k - 1, answers[at + k - 1])));
        assert forall|i: int| 0 <= i < k implies after[#[trigger] loser(
            e,
            i,
            answers[at + i],
        ) as int] == winner(e, i, answers[at + i]) by {
            let main = loser(e, i, answers[at + i]);
            if i < k - 1 {
                let ji = if answers[at + i] {
                    2 * i + 1
                } else {
                    2 * i
                };
                assert(e[ji] == main);
                assert(ji != j);
                assert(main != last);
                lemma_largest(e, ji);
                assert(before[main as int] == winner(e, i, answers[at + i]));
                assert(after[main as int] == before[main as int]);
            } else {
                assert(main == last);
                assert(after[last as int] == winner(e, k - 1, answers[at + k - 1]));
            }
        }
    }
}

/// Putting an element into a chain keeps what was there and adds the
/// element.
pub proof fn lemma_insert_keeps(chain: Seq<usize>, pos: int, elem: usize)
    requires
        0 <= pos <= chain.len(),
    ensures
        chain.insert(pos, elem).contains(elem),
        forall|x: usize| chain.contains(x) ==> chain.insert(pos, elem).contains(x),
{
    let out = chain.insert(pos, elem);
    assert(out[pos] == elem);
    assert forall|x: usize| chain.contains(x) implies out.contains(x) by {
        let i = choose|i: int| 0 <= i < chain.len() && chain[i] == x;
        if i < pos {
            assert(out[i] == x);
        } else {
            assert(out[i + 1] == x);
        }
    }
}

/// The insertions from a search in progress onwards keep the chain's
/// elements and add the waiting element of every schedule entry left.
pub proof fn lemma_insert_from_keeps(
    chain: Seq<usize>,
    waiting: Seq<(usize, Option<usize>)>,
    order: Seq<usize>,
    idx: int,
    lo: int,
    hi: int,
    answers: Seq<bool>,
    at: int,
)
    requires
        0 <= idx < order.len(),
        0 <= lo <= hi <= chain.len(),
        0 <= at <= answers.len(),
    ensures
        insert_from(chain, waiting, order, idx, lo, hi, answers, at) matches Outcome::Sorted {
            order: out,
            next,
        } ==> (forall|x: usize| chain.contains(x) ==> out.contains(x)) && (forall|j: int|
            idx <= j < order.len() ==> out.contains(#[trigger] waiting[order[j] as int].0)),
    decreases order.len() - idx, 0int,
{
    let elem = waiting[order[idx] as int].0;
    lemma_search_bound(chain, elem, lo, hi, answers, at);
    match search(chain, elem, lo, hi, answers, at) {
        Probe::Asks { a, b } => {},
        Probe::Found { pos, next } => {
            lemma_insert_keeps(chain, pos, elem);
            lemma_insert_rest_keeps(chain.insert(pos, elem), waiting, order, idx + 1, answers, next);
        },
    }
}

/// The insertions from schedule entry `idx` onwards keep the chain's
/// elements and add the waiting element of every schedule entry left.
pub proof fn lemma_insert_rest_keeps(
    chain: Seq<usize>,
    waiting: Seq<(usize, Option<usize>)>,
    order: Seq<usize>,
    idx: int,
    answers: Seq<bool>,
    at: int,
)
    requires
        0 <= idx <= order.len(),
        0 <= at <= answers.len(),
    ensures
        insert_rest(chain, waiting, order, idx, answers, at) matches Outcome::Sorted {
            order: out,
            next,
        } ==> (forall|x: usize| chain.contains(x) ==> out.contains(x)) && (forall|j: int|
            idx <= j < order.len() ==> out.contains(#[trigger] waiting[order[j] as int].0)),
    decreases order.len() - idx, 1int,
{
    if idx < order.len() {
        let main = waiting[order[idx] as int].1;
        if main is Some {
            lemma_position_range(chain, main->0);
        }
        lemma_insert_from_keeps(
            chain,
            waiting,
            order,
            idx,
            0,
            bound_of(chain, main),
            answers,
            at,
        );
    }
}

/// A run on a list without repeats ends with a rearrangement of the list.
pub proof fn lemma_sort_rearranges(e: Seq<usize>, answers: Seq<bool>, at: int)
    requires
        e.no_duplicates(),
        e.len() <= usize::MAX,
        0 <= at <= answers.len(),
    ensures
        sort(e, answers, at) matches Outcome::Sorted { order, next } ==> is_rearrangement(order, e),
    decreases e.len(),
{
    let pairs = (e.len() / 2) as int;
    if e.len() <= 1 {
    } else if answers.len() < at + pairs {
    } else {
        let mains = mains_of(e, answers, at, pairs);
        lemma_mains(e, answers, at, pairs);
        lemma_partners(e, answers, at, pairs);
        lemma_sort_bound(mains, answers, at + pairs);
        lemma_sort_rearranges(mains, answers, at + pairs);
        match sort(mains, answers, at + pairs) {
            Outcome::Asks { a, b } => {},
            Outcome::Sorted { order: sm, next: n1 } => {
                let partner = partners_of(e, answers, at, pairs);
                let waiting = waiting_list(partner, sm, straggler_of(e));
                let schedule = jacobsthal_seq(waiting.len());
                let chain = seed_chain(partner, sm);
                assert(waiting.len() == e.len() - pairs - 1);
                lemma_jacobsthal_seq_is_arrangement(waiting.len());
                lemma_insert_rest_bound(chain, waiting, schedule, 0, answers, n1);
                lemma_insert_rest_keeps(chain, waiting, schedule, 0, answers, n1);
                match insert_rest(chain, waiting, schedule, 0, answers, n1) {
                    Outcome::Asks { a, b } => {},
                    Outcome::Sorted { order: out, next } => {
                        assert forall|x: usize| e.contains(x) implies out.contains(x) by {
                            let j = choose|j: int| 0 <= j < e.len() && e[j] == x;
                            if j == 2 * pairs {
                                let w = waiting.len() - 1;
                                assert(waiting[w].0 == x);
                                assert(schedule.contains(w as usize));
                                let jj = choose|jj: int|
                                    0 <= jj < schedule.len() && schedule[jj] == w as usize;
                                assert(out.contains(waiting[schedule[jj] as int].0));
                            } else {
                                let i = j / 2;
                                let m = mains[i];
                                assert(m == loser(e, i, answers[at + i]));
                                assert(mains.contains(m));
                                assert(sm.contains(m));
                                let k = choose|k: int| 0 <= k < sm.len() && sm[k] == m;
                                if x == m {
                                    assert(chain[k + 1] == x);
                                } else {
                                    assert(x == winner(e, i, answers[at + i]));
                                    assert(partner[m as int] == x);
                                    if k == 0 {
                                        assert(chain[0] == x);
                                    } else {
                                        assert(waiting[k - 1].0 == x);
                                        assert(schedule.contains((k - 1) as usize));
                                        let jj = choose|jj: int|
                                            0 <= jj < schedule.len() && schedule[jj] == (k
                                                - 1) as usize;
                                        assert(out.contains(waiting[schedule[jj] as int].0));
                                    }
                                }
                            }
                        }
                        lemma_full_cover_rearranges(out, e);
                    },
                }
            },
        }
    }
}

/// A run on the items `0 .. n` ends with every item once: the ranking
/// holds each item as often as the list of the items does.
pub proof fn lemma_rank_permutes(n: nat, answers: Seq<bool>)
    requires
        n <= usize::MAX,
    ensures
        rank(n, answers) matches Outcome::Sorted { order, next } ==> is_rearrangement(
            order,
            iota(n),
        ) && order.to_multiset() == iota(n).to_multiset(),
{
    lemma_sort_rearranges(iota(n), answers, 0);
    match rank(n, answers) {
        Outcome::Sorted { order, next } => {
            lemma_rearrangement_multiset(order, iota(n));
        },
        Outcome::Asks { a, b } => {},
    }
}

/// What the insertions lean on: the chain and the waiting elements stay
/// below `limit`, and every main that a waiting element is bound to stands
/// in the chain.
pub open spec fn insertable(
    limit: int,
    chain: Seq<usize>,
    waiting: Seq<(usize, Option<usize>)>,
) -> bool {
    &&& forall|j: int| 0 <= j < chain.len() ==> #[trigger] chain[j] < limit
    &&& forall|i: int| 0 <= i < waiting.len() ==> (#[trigger] waiting[i]).0 < limit
    &&& forall|i: int|
        0 <= i < waiting.len() ==> ((#[trigger] waiting[i]).1 matches Some(m) ==> chain.contains(m))
}

/// An insertion leaves the chain fit for the insertions to come.
pub proof fn lemma_insert_insertable(
    limit: int,
    chain: Seq<usize>,
    waiting: Seq<(usize, Option<usize>)>,
    pos: int,
    elem: usize,
)
    requires
        insertable(limit, chain, waiting),
        0 <= pos <= chain.len(),
        elem < limit,
    ensures
        insertable(limit, chain.insert(pos, elem), waiting),
{
    let out = chain.insert(pos, elem);
    lemma_insert_keeps(chain, pos, elem);
    assert forall|j: int| 0 <= j < out.len() implies #[trigger] out[j] < limit by {
        if j < pos {
            assert(out[j] == chain[j]);
        } else if j > pos {
            assert(out[j] == chain[j - 1]);
        }
    }
}

/// With the mains of a list without repeats in some order, every main has
/// its partner in the table, and the seeded chain is fit for the insertions.
pub proof fn lemma_seed_insertable(
    e: Seq<usize>,
    answers: Seq<bool>,
    at: int,
    sorted_mains: Seq<usize>,
    limit: int,
)
    requires
        e.no_duplicates(),
        e.len() >= 2,
        forall|j: int| 0 <= j < e.len() ==> #[trigger] e[j] < limit,
        is_rearrangement(sorted_mains, mains_of(e, answers, at, (e.len() / 2) as int)),
    ensures
        ({
            let partner = partners_of(e, answers, at, (e.len() / 2) as int);
            &&& sorted_mains.len() == e.len() / 2
            &&& forall|k: int|
                0 <= k < sorted_mains.len() ==> (#[trigger] sorted_mains[k]) < partner.len()
                    && partner[sorted_mains[k] as int] < limit
            &&& insertable(
                limit,
                seed_chain(partner, sorted_mains),
                waiting_list(partner, sorted_mains, straggler_of(e)),
            )
        }),
{
    let pairs = (e.len() / 2) as int;
    let mains = mains_of(e, answers, at, pairs);
    let partner = partners_of(e, answers, at, pairs);
    let chain = seed_chain(partner, sorted_mains);
    let waiting = waiting_list(partner, sorted_mains, straggler_of(e));
    lemma_mains(e, answers, at, pairs);
    lemma_partners(e, answers, at, pairs);
    assert forall|k: int| 0 <= k < sorted_mains.len() implies (#[trigger] sorted_mains[k])
        < partner.len() && partner[sorted_mains[k] as int] < limit && sorted_mains[k] < limit by {
        let m = sorted_mains[k];
        assert(sorted_mains.contains(m));
        assert(mains.contains(m));
        let i = choose|i: int| 0 <= i < mains.len() && mains[i] == m;
        assert(m == loser(e, i, answers[at + i]));
        assert(partner[m as int] == winner(e, i, answers[at + i]));
        assert(e.contains(mains[i]));
    }
    assert forall|j: int| 0 <= j < chain.len() implies #[trigger] chain[j] < limit by {
        if j > 0 {
            assert(chain[j] == sorted_mains[j - 1]);
        }
    }
    assert forall|i: int| 0 <= i < waiting.len() implies (#[trigger] waiting[i]).0 < limit && (
    waiting[i].1 matches Some(m) ==> chain.contains(m)) by {
        if i < sorted_mains.len() - 1 {
            assert(waiting[i] == (
                partner[sorted_mains[i + 1] as int],
                Some(sorted_mains[i + 1]),
            ));
            assert(chain[i + 2] == sorted_mains[i + 1]);
        } else {
            assert(waiting[i] == (e.last(), None::<usize>));
        }
    }
}

} // verus!
