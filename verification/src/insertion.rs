//! Ranking by binary insertion: the items are taken in the order given, and
//! each is put into the ranking so far at the place that a binary search
//! finds for it.

use vstd::prelude::*;
use crate::comparator::{
    answers_all, index_relation, is_ranked, is_strict_weak_order, may_answer, ranks_before,
};
use crate::ordering::{is_weak_order, lemma_before, lemma_index_relation, lemma_not_before};
use crate::rearrange::{is_rearrangement, lemma_full_cover_rearranges};
use crate::sorter::{arranged, lemma_arranged_multiset};
use crate::transcript::iota;

verus! {

/// Among items that are tied, the one given first stands first: an item
/// that stands before an item given earlier ranks before it.
pub open spec fn is_stable<T, F: FnMut(&T, &T) -> bool>(
    ranking: Seq<T>,
    order: Seq<usize>,
    better: F,
) -> bool {
    forall|i: int, j: int|
        0 <= i < j < ranking.len() && order[i] > order[j] ==> ranks_before(
            better,
            &ranking[i],
            &ranking[j],
        )
}

/// `ranking` holds the items in the order that `order` gives their
/// indices in; where `better` is a strict weak ordering, the ranking is
/// ranked by it and stable.
pub open spec fn is_stable_ranking<T, F: FnMut(&T, &T) -> bool>(
    better: F,
    items: Seq<T>,
    order: Seq<usize>,
    ranking: Seq<T>,
) -> bool {
    &&& is_rearrangement(order, iota(items.len()))
    &&& ranking == arranged(items, order)
    &&& is_strict_weak_order(better) ==> is_ranked(ranking, better) && is_stable(
        ranking,
        order,
        better,
    )
}

/// An item put where the ranking changes from "not after it" to "after
/// it" leaves the ranking ranked.
proof fn lemma_insert_keeps_ranked<T, F: FnMut(&T, &T) -> bool>(
    better: F,
    ranking: Seq<T>,
    idx: int,
    item: T,
)
    requires
        is_strict_weak_order(better),
        is_ranked(ranking, better),
        0 <= idx <= ranking.len(),
        forall|i: int| 0 <= i < idx ==> !ranks_before(better, &item, &#[trigger] ranking[i]),
        forall|i: int|
            idx <= i < ranking.len() ==> ranks_before(better, &item, &#[trigger] ranking[i]),
    ensures
        is_ranked(ranking.insert(idx, item), better),
{
    let out = ranking.insert(idx, item);
    assert forall|i: int, j: int| 0 <= i < j < out.len() implies !ranks_before(
        better,
        &out[j],
        &out[i],
    ) by {
        if j < idx {
            assert(out[i] == ranking[i] && out[j] == ranking[j]);
        } else if j == idx {
            assert(out[i] == ranking[i]);
        } else {
            assert(out[j] == ranking[j - 1]);
            if i < idx {
                assert(out[i] == ranking[i]);
            } else if i > idx {
                assert(out[i] == ranking[i - 1]);
            } else {
                // the item ranks before what follows it, so that does not
                // rank before the item
                let x = &item;
                let y = &ranking[j - 1];
                assert(ranks_before(better, x, y));
                if ranks_before(better, y, x) {
                    assert(ranks_before(better, x, y) && ranks_before(better, y, x));
                    assert(ranks_before(better, x, x));
                }
            }
        }
    }
}

/// Finds the place of `item` in `ranking` by binary search, asking `better`
/// whether `item` ranks before the item in the middle.
///
/// Where `better` is a strict weak ordering and `ranking` is ranked by it,
/// the place is the first whose item `item` ranks before: `item` ranks
/// before none of the items ahead of the place, and before all from the
/// place on.
pub fn binary_insert_index<T, F>(item: &T, ranking: &[T], better: &mut F) -> (idx: usize) where
    F: FnMut(&T, &T) -> bool,

    requires
        answers_all(*old(better)),
    ensures
        *final(better) == *old(better),
        idx <= ranking.len(),
        is_strict_weak_order(*old(better)) && is_ranked(ranking@, *old(better)) ==> (forall|
            i: int,
        |
            0 <= i < idx ==> !ranks_before(*old(better), item, &#[trigger] ranking[i])) && (forall|
            i: int,
        |
            idx <= i < ranking.len() ==> ranks_before(
                *old(better),
                item,
                &#[trigger] ranking[i],
            )),
{
    let mut lo: usize = 0usize;
    let mut hi: usize = ranking.len();
    let ghost all = ranking@.push(*item);
    let ghost rel = index_relation(*better, all);
    let ghost last = ranking.len();
    let ghost sound = is_strict_weak_order(*better) && is_ranked(ranking@, *better);
    proof {
        if sound {
            lemma_index_relation(*better, all);
        }
    }
    while lo < hi
        invariant
            lo <= hi <= ranking.len(),
            answers_all(*better),
            *better == *old(better),
            all == ranking@.push(*item),
            rel == index_relation(*better, all),
            last == ranking.len(),
            sound == (is_strict_weak_order(*better) && is_ranked(ranking@, *better)),
            sound ==> is_weak_order(rel),
            sound ==> forall|i: int| 0 <= i < lo ==> !ranks_before(*better, item, &#[trigger] ranking[i]),
            sound ==> forall|i: int|
                hi <= i < ranking.len() ==> ranks_before(*better, item, &#[trigger] ranking[i]),
        decreases hi - lo,
    {
        let mid: usize = lo + (hi - lo) / 2;
        let answer: bool = better(item, &ranking[mid]);
        proof {
            if sound {
                assert(may_answer(*better, item, &ranking[mid as int], answer));
                assert(answer == ranks_before(*better, item, &ranking[mid as int]));
                assert(all[last as int] == *item);
                assert(all[mid as int] == ranking[mid as int]);
                assert(rel(last as usize, mid) == answer);
                if answer {
                    assert forall|i: int| mid <= i < ranking.len() implies ranks_before(
                        *better,
                        item,
                        &#[trigger] ranking[i],
                    ) by {
                        if mid < i < hi {
                            assert(all[i] == ranking[i]);
                            assert(!ranks_before(*better, &ranking[i], &ranking[mid as int]));
                            assert(!rel(i as usize, mid));
                            lemma_before(rel, last as usize, mid, i as usize);
                        }
                    }
                } else {
                    assert forall|i: int| 0 <= i < mid + 1 implies !ranks_before(
                        *better,
                        item,
                        &#[trigger] ranking[i],
                    ) by {
                        if lo <= i < mid {
                            assert(all[i] == ranking[i]);
                            assert(!ranks_before(*better, &ranking[mid as int], &ranking[i]));
                            assert(!rel(mid, i as usize));
                            lemma_not_before(rel, last as usize, mid, i as usize);
                        }
                    }
                }
            }
        }
        if answer {
            hi = mid;
        } else {
            lo = mid + 1;
        }
    }
    lo
}

/// Ranks `items` by binary insertion: `better(a, b)` says whether `a` ranks
/// before `b`.
///
/// The result holds the items given, each as often as before.  It is the
/// items taken in some order of their indices; where `better` is a strict
/// weak ordering, no item of the result ranks before an item that stands
/// earlier in it, and items that are tied stand in the order given.
pub fn rank_items<T, F>(items: Vec<T>, mut better: F) -> (ranking: Vec<T>) where
    F: FnMut(&T, &T) -> bool,

    requires
        answers_all(better),
    ensures
        ranking@.to_multiset() == items@.to_multiset(),
        exists|order: Seq<usize>| is_stable_ranking(better, items@, order, ranking@),
{
    let mut ranking: Vec<T> = Vec::new();
    let ghost given = items@;
    let ghost asked = better;
    let ghost mut order: Seq<usize> = Seq::empty();
    assert(ranking@ =~= arranged(given, order));
    assert(given.len() <= usize::MAX) by {
        assert(given.len() == items.len());
    }
    for item in iter: items
        invariant
            iter.seq() == given,
            given.len() <= usize::MAX,
            answers_all(better),
            better == asked,
            order.len() == iter.index(),
            is_rearrangement(order, iota(iter.index() as nat)),
            ranking@ == arranged(given, order),
            is_strict_weak_order(better) ==> is_ranked(ranking@, better) && is_stable(
                ranking@,
                order,
                better,
            ),
    {
        let ghost k = iter.index();
        let idx: usize = binary_insert_index(&item, ranking.as_slice(), &mut better);
        proof {
            let before = ranking@;
            let longer = order.insert(idx as int, k as usize);
            assert(item == given[k as int]);
            assert(before.insert(idx as int, item) =~= arranged(given, longer));
            assert forall|x: usize| iota((k + 1) as nat).contains(x) implies longer.contains(x) by {
                if x == k {
                    assert(longer[idx as int] == x);
                } else {
                    assert(iota(k as nat)[x as int] == x);
                    assert(order.contains(x));
                    let p = choose|p: int| 0 <= p < order.len() && order[p] == x;
                    if p < idx {
                        assert(longer[p] == x);
                    } else {
                        assert(longer[p + 1] == x);
                    }
                }
            }
            assert(iota((k + 1) as nat).no_duplicates());
            lemma_full_cover_rearranges(longer, iota((k + 1) as nat));
            if is_strict_weak_order(better) {
                lemma_insert_keeps_ranked(better, before, idx as int, item);
                let after = before.insert(idx as int, item);
                assert forall|i: int, j: int|
                    0 <= i < j < after.len() && longer[i] > longer[j] implies ranks_before(
                    better,
                    &after[i],
                    &after[j],
                ) by {
                    let small = iota(k as nat);
                    if i != idx && j != idx {
                        let i0 = if i < idx {
                            i
                        } else {
                            i - 1
                        };
                        let j0 = if j < idx {
                            j
                        } else {
                            j - 1
                        };
                        assert(after[i] == before[i0] && after[j] == before[j0]);
                        assert(longer[i] == order[i0] && longer[j] == order[j0]);
                    } else if i == idx {
                        assert(after[j] == before[j - 1]);
                    } else {
                        let i0 = i;
                        assert(longer[i] == order[i0]);
                        assert(order.contains(order[i0]));
                        let p = choose|p: int| 0 <= p < small.len() && small[p] == order[i0];
                    }
                }
            }
            order = longer;
        }
        ranking.insert(idx, item);
    }
    proof {
        lemma_arranged_multiset(given, order);
        assert(is_stable_ranking(better, given, order, ranking@));
    }
    ranking
}

} // verus!
