//! What is asked of a comparator, and what it means for a list to be ranked
//! by one.
//!
//! A comparator is any `FnMut(&T, &T) -> bool`: `better(a, b)` says whether
//! `a` ranks before `b`.  Nothing is known of a closure but what its own
//! contract tells, so everything here is stated over the answers the
//! contract allows.

use vstd::prelude::*;

verus! {

/// `better` may say `answer` when asked whether `a` ranks before `b`.
pub open spec fn may_answer<T, F: FnMut(&T, &T) -> bool>(
    better: F,
    a: &T,
    b: &T,
    answer: bool,
) -> bool {
    call_ensures(better, (a, b), answer)
}

/// `better` may say that `a` ranks before `b`.
pub open spec fn ranks_before<T, F: FnMut(&T, &T) -> bool>(better: F, a: &T, b: &T) -> bool {
    may_answer(better, a, b, true)
}

/// `better` can be asked about any two items.
pub open spec fn answers_all<T, F: FnMut(&T, &T) -> bool>(better: F) -> bool {
    forall|a: &T, b: &T| call_requires(better, (a, b))
}

/// `better` never has two answers to one question.
pub open spec fn is_decided<T, F: FnMut(&T, &T) -> bool>(better: F) -> bool {
    forall|a: &T, b: &T|
        !(#[trigger] may_answer(better, a, b, true) && may_answer(better, a, b, false))
}

/// Neither of `a` and `b` ranks before the other.
pub open spec fn tied<T, F: FnMut(&T, &T) -> bool>(better: F, a: &T, b: &T) -> bool {
    !ranks_before(better, a, b) && !ranks_before(better, b, a)
}

/// `better` is a strict weak ordering: it is decided, no item ranks before
/// itself, ranking before is transitive, and so is being tied.
pub open spec fn is_strict_weak_order<T, F: FnMut(&T, &T) -> bool>(better: F) -> bool {
    &&& is_decided(better)
    &&& forall|a: &T| !#[trigger] ranks_before(better, a, a)
    &&& forall|a: &T, b: &T, c: &T|
        #![trigger ranks_before(better, a, b), ranks_before(better, b, c)]
        ranks_before(better, a, b) && ranks_before(better, b, c) ==> ranks_before(better, a, c)
    &&& forall|a: &T, b: &T, c: &T|
        #![trigger tied(better, a, b), tied(better, b, c)]
        tied(better, a, b) && tied(better, b, c) ==> tied(better, a, c)
}

/// No item of `s` ranks before an item that stands earlier in `s`.
pub open spec fn is_ranked<T, F: FnMut(&T, &T) -> bool>(s: Seq<T>, better: F) -> bool {
    forall|i: int, j: int| 0 <= i < j < s.len() ==> !ranks_before(better, &s[j], &s[i])
}

/// The ranking of items that `better` gives, told of their indices.
pub open spec fn index_relation<T, F: FnMut(&T, &T) -> bool>(better: F, items: Seq<T>) -> spec_fn(
    usize,
    usize,
) -> bool {
    |a: usize, b: usize| ranks_before(better, &items[a as int], &items[b as int])
}

} // verus!
