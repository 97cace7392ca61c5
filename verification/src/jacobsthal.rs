//! The order in which waiting elements are inserted into the chain.
//!
//! Waiting elements carry the labels 2, 3, 4, ... (the element at position
//! `i` has label `i + 2`).  The labels are cut into groups at the boundaries
//! 1, 3, 5, 11, 21, 43, ... (each boundary is the one before it plus twice
//! the one before that), and every group is walked from its highest label
//! down to its lowest.  Walking downwards keeps each binary search on a
//! prefix of at most `2^k - 1` chain elements.

use vstd::prelude::*;

verus! {

/// The positions of the labels `top, top - 1, ..., prev + 1`, in this order.
pub open spec fn group(prev: nat, top: nat) -> Seq<usize> {
    Seq::new((top - prev) as nat, |j: int| (top - 2 - j) as usize)
}

/// The schedule from the group `(prev, curr]` onwards, for `count` waiting
/// elements: the group, cut off at label `count + 1`, and then the groups
/// after it.
pub open spec fn schedule_from(prev: nat, curr: nat, count: nat) -> Seq<usize>
    decreases count + 1 - prev,
    when 0 < prev < curr
{
    if curr >= count + 1 {
        group(prev, count + 1)
    } else {
        group(prev, curr) + schedule_from(curr, curr + 2 * prev, count)
    }
}

/// The insertion schedule for `count` waiting elements.
pub open spec fn jacobsthal_seq(count: nat) -> Seq<usize> {
    if count == 0 {
        Seq::empty()
    } else {
        schedule_from(1, 3, count)
    }
}

/// `s` holds every position in `[lo, hi)` exactly once, and nothing else.
pub open spec fn is_arrangement(s: Seq<usize>, lo: int, hi: int) -> bool {
    &&& s.len() == hi - lo
    &&& forall|j: int| 0 <= j < s.len() ==> lo <= #[trigger] s[j] < hi
    &&& forall|i: int, j: int| 0 <= i < j < s.len() ==> s[i] != s[j]
    &&& forall|v: usize| lo <= v < hi ==> #[trigger] s.contains(v)
}

proof fn lemma_group(prev: nat, top: nat)
    requires
        0 < prev <= top,
        top <= usize::MAX,
    ensures
        is_arrangement(group(prev, top), prev - 1, top - 1),
{
    let s = group(prev, top);
    assert forall|v: usize| prev - 1 <= v < top - 1 implies #[trigger] s.contains(v) by {
        assert(s[top - 2 - v] == v);
    }
}

proof fn lemma_arrangement_concat(a: Seq<usize>, b: Seq<usize>, lo: int, mid: int, hi: int)
    requires
        is_arrangement(a, lo, mid),
        is_arrangement(b, mid, hi),
    ensures
        is_arrangement(a + b, lo, hi),
{
    let s = a + b;
    assert forall|v: usize| lo <= v < hi implies #[trigger] s.contains(v) by {
        if v < mid {
            assert(a.contains(v));
            let j = choose|j: int| 0 <= j < a.len() && a[j] == v;
            assert(s[j] == v);
        } else {
            assert(b.contains(v));
            let j = choose|j: int| 0 <= j < b.len() && b[j] == v;
            assert(s[a.len() + j] == v);
        }
    }
    assert forall|i: int, j: int| 0 <= i < j < s.len() implies s[i] != s[j] by {
        if j < a.len() {
            assert(s[i] == a[i] && s[j] == a[j]);
        } else if i >= a.len() {
            assert(s[i] == b[i - a.len()] && s[j] == b[j - a.len()]);
        } else {
            assert(s[i] == a[i] && s[j] == b[j - a.len()]);
        }
    }
}

proof fn lemma_schedule_from(prev: nat, curr: nat, count: nat)
    requires
        0 < prev < curr,
        prev <= count + 1,
        count < usize::MAX,
    ensures
        is_arrangement(schedule_from(prev, curr, count), prev - 1, count as int),
    decreases count + 1 - prev,
{
    if curr >= count + 1 {
        lemma_group(prev, count + 1);
    } else {
        lemma_group(prev, curr);
        lemma_schedule_from(curr, curr + 2 * prev, count);
        lemma_arrangement_concat(
            group(prev, curr),
            schedule_from(curr, curr + 2 * prev, count),
            prev - 1,
            curr - 1,
            count as int,
        );
    }
}

/// The schedule for `count` waiting elements names every position in
/// `[0, count)` exactly once.
pub proof fn lemma_jacobsthal_seq_is_arrangement(count: nat)
    requires
        count < usize::MAX,
    ensures
        is_arrangement(jacobsthal_seq(count), 0, count as int),
{
    if count > 0 {
        lemma_schedule_from(1, 3, count);
    }
}

/// Returns the positions `0 .. count` in the order in which the waiting
/// elements are to be inserted: `jacobsthal_seq(count)`.
///
/// The boundaries are computed in machine words, which asks for
/// `count <= usize::MAX / 2`.
pub fn jacobsthal_order(count: usize) -> (order: Vec<usize>)
    requires
        count <= usize::MAX / 2,
    ensures
        order@ == jacobsthal_seq(count as nat),
        is_arrangement(order@, 0, count as int),
{
    proof {
        lemma_jacobsthal_seq_is_arrangement(count as nat);
    }
    if count == 0 {
        return Vec::new();
    }
    let mut order: Vec<usize> = Vec::with_capacity(count);
    let mut prev: usize = 1;
    let mut curr: usize = 3;
    loop
        invariant_except_break
            0 < prev < curr,
            prev <= count,
            2 * prev - 1 <= curr <= 2 * prev + 1,
            order.len() == prev - 1,
            order@ + schedule_from(prev as nat, curr as nat, count as nat) == jacobsthal_seq(
                count as nat,
            ),
        invariant
            0 < count <= usize::MAX / 2,
            is_arrangement(jacobsthal_seq(count as nat), 0, count as int),
        ensures
            order@ == jacobsthal_seq(count as nat),
            is_arrangement(order@, 0, count as int),
        decreases count + 1 - prev,
    {
        let top: usize = if curr < count + 1 {
            curr
        } else {
            count + 1
        };
        let ghost before = order@;
        let mut b: usize = top;
        while b > prev
            invariant
                0 < prev <= b <= top,
                top <= count + 1,
                order@ == before + group(prev as nat, top as nat).subrange(0, top - b),
            decreases b,
        {
            order.push(b - 2);
            b -= 1;
            assert(order@ == before + group(prev as nat, top as nat).subrange(0, top - b));
        }
        assert(order@ == before + group(prev as nat, top as nat));
        if order.len() >= count {
            break ;
        }
        assert(before + (group(prev as nat, curr as nat) + schedule_from(
            curr as nat,
            (curr + 2 * prev) as nat,
            count as nat,
        )) == (before + group(prev as nat, curr as nat)) + schedule_from(
            curr as nat,
            (curr + 2 * prev) as nat,
            count as nat,
        ));
        let next: usize = curr + 2 * prev;
        prev = curr;
        curr = next;
    }
    order
}

} // verus!
