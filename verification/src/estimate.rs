//! An upper bound on the number of comparisons a ranking needs.
//!
//! [`estimate_turns`] adds up, level by level, one comparison per pair and
//! the longest binary search each later insertion can run into.

use vstd::prelude::*;

verus! {

/// Number of binary digits of `v`: 0 for 0, otherwise one more than for `v / 2`.
pub open spec fn bit_length(v: nat) -> nat
    decreases v,
{
    if v == 0 {
        0
    } else {
        1 + bit_length(v / 2)
    }
}

/// Ceiling of the base-2 logarithm: 0 for `v <= 1`, otherwise the bit length
/// of `v - 1`.
pub open spec fn spec_ceil_log2(v: nat) -> nat {
    if v <= 1 {
        0
    } else {
        bit_length((v - 1) as nat)
    }
}

/// Sum of `spec_ceil_log2(len + 1)` over the chain lengths `len` in `[lo, hi)`.
pub open spec fn search_cost(lo: nat, hi: nat) -> nat
    decreases hi,
{
    if lo >= hi {
        0
    } else {
        search_cost(lo, (hi - 1) as nat) + spec_ceil_log2(hi)
    }
}

/// The estimate for `n` items: one comparison per pair, the estimate for the
/// losers of the pairs, and a worst-case binary search for every chain
/// length from `n / 2 + 1` up to `n - 1`.
pub open spec fn spec_estimate_turns(n: nat) -> nat
    decreases n,
{
    if n <= 1 {
        0
    } else {
        n / 2 + spec_estimate_turns(n / 2) + search_cost(n / 2 + 1, n)
    }
}

/// The bit length never shrinks when its argument grows.
pub proof fn lemma_bit_length_monotone(a: nat, b: nat)
    requires
        a <= b,
    ensures
        bit_length(a) <= bit_length(b),
    decreases b,
{
    if a > 0 {
        lemma_bit_length_monotone(a / 2, b / 2);
    }
}

/// A value below `2^64` has at most 64 binary digits.
proof fn lemma_bit_length_small(v: nat, k: nat)
    requires
        v < vstd::arithmetic::power2::pow2(k),
    ensures
        bit_length(v) <= k,
    decreases v,
{
    vstd::arithmetic::power2::lemma2_to64();
    if v > 0 {
        if k == 0 {
            assert(vstd::arithmetic::power2::pow2(0) == 1);
        } else {
            vstd::arithmetic::power2::lemma_pow2_unfold(k);
            lemma_bit_length_small(v / 2, (k - 1) as nat);
        }
    }
}

/// Every machine word has at most 64 binary digits.
pub proof fn lemma_bit_length_of_word(v: usize)
    ensures
        bit_length(v as nat) <= 64,
{
    vstd::arithmetic::power2::lemma2_to64();
    vstd::arithmetic::power2::lemma2_to64_rest();
    lemma_bit_length_small(v as nat, 64);
}

/// Widening the range of chain lengths to the right adds searches.
pub proof fn lemma_search_cost_extend(lo: nat, mid: nat, hi: nat)
    requires
        mid <= hi,
    ensures
        search_cost(lo, mid) <= search_cost(lo, hi),
    decreases hi,
{
    if mid < hi {
        lemma_search_cost_extend(lo, mid, (hi - 1) as nat);
    }
}

/// The sum can be taken from the shortest chain length upwards as well.
pub proof fn lemma_search_cost_front(lo: nat, hi: nat)
    requires
        lo < hi,
    ensures
        search_cost(lo, hi) == bit_length(lo) + search_cost(lo + 1, hi),
    decreases hi,
{
    if lo + 1 < hi {
        lemma_search_cost_front(lo, (hi - 1) as nat);
    } else {
        assert(search_cost(lo, (hi - 1) as nat) == 0);
    }
}

/// One more item never lowers the estimate.
pub proof fn lemma_estimate_turns_step(n: nat)
    ensures
        spec_estimate_turns(n) <= spec_estimate_turns(n + 1),
    decreases n,
{
    if n <= 1 {
    } else if n % 2 == 0 {
        // same number of pairs, one more insertion
        assert((n + 1) / 2 == n / 2);
        lemma_search_cost_extend(n / 2 + 1, n, n + 1);
    } else {
        // one more pair, the insertions slide along by one
        let p = n / 2;
        assert((n + 1) / 2 == p + 1);
        lemma_estimate_turns_step(p);
        lemma_search_cost_front(p + 1, n);
        assert(search_cost(p + 2, n + 1) == search_cost(p + 2, n) + spec_ceil_log2(n + 1));
        lemma_bit_length_monotone(p + 1, n);
    }
}

/// The estimate is monotone nondecreasing in the number of items.
pub proof fn lemma_estimate_turns_monotone(a: nat, b: nat)
    requires
        a <= b,
    ensures
        spec_estimate_turns(a) <= spec_estimate_turns(b),
    decreases b - a,
{
    if a < b {
        lemma_estimate_turns_monotone(a, (b - 1) as nat);
        lemma_estimate_turns_step((b - 1) as nat);
    }
}

/// A sum of searches over chains shorter than `hi` stays below
/// `(hi - lo) * bit_length(hi - 1)`.
proof fn lemma_search_cost_bound(lo: nat, hi: nat)
    requires
        1 <= lo <= hi,
    ensures
        search_cost(lo, hi) <= (hi - lo) * bit_length((hi - 1) as nat),
    decreases hi,
{
    if lo < hi {
        let h = (hi - 1) as nat;
        lemma_search_cost_bound(lo, h);
        if lo < h {
            lemma_bit_length_monotone((h - 1) as nat, h);
            assert((h - lo) * bit_length((h - 1) as nat) <= (h - lo) * bit_length(h))
                by (nonlinear_arith)
                requires
                    lo <= h,
                    bit_length((h - 1) as nat) <= bit_length(h),
            ;
        } else {
            assert(search_cost(lo, h) == 0);
        }
        assert((h - lo) * bit_length(h) + bit_length(h) == (hi - lo) * bit_length(h))
            by (nonlinear_arith)
            requires
                hi == h + 1,
        ;
    } else {
        assert((hi - lo) * bit_length((hi - 1) as nat) == 0) by (nonlinear_arith)
            requires
                hi == lo,
        ;
    }
}

/// The estimate stays below `n` times the bit length of `n`.
pub proof fn lemma_estimate_turns_bound(n: nat)
    ensures
        spec_estimate_turns(n) <= n * bit_length(n),
    decreases n,
{
    if n <= 1 {
        assert(0 <= n * bit_length(n)) by (nonlinear_arith);
    } else {
        let p = n / 2;
        let b = bit_length(n);
        lemma_estimate_turns_bound(p);
        lemma_search_cost_bound(p + 1, n);
        lemma_bit_length_monotone((n - 1) as nat, n);
        assert(bit_length(p) == b - 1);
        assert(p + p * (b - 1) + (n - (p + 1)) * bit_length((n - 1) as nat) <= n * b)
            by (nonlinear_arith)
            requires
                p + 1 <= n,
                bit_length((n - 1) as nat) <= b,
                b >= 1,
        ;
    }
}

/// The estimate for at most `usize::MAX / 64` items fits a machine word.
pub proof fn lemma_estimate_turns_fits(n: nat)
    requires
        64 * n <= usize::MAX,
    ensures
        spec_estimate_turns(n) <= usize::MAX,
{
    lemma_estimate_turns_bound(n);
    lemma_bit_length_of_word(n as usize);
    assert(n * bit_length(n) <= 64 * n) by (nonlinear_arith)
        requires
            bit_length(n) <= 64,
    ;
}

/// Computes `spec_ceil_log2(value)` by counting the binary digits of
/// `value - 1`.
pub fn ceil_log2(value: usize) -> (bits: usize)
    ensures
        bits == spec_ceil_log2(value as nat),
{
    if value <= 1 {
        return 0;
    }
    let mut v: usize = value - 1;
    let mut bits: usize = 0usize;
    proof {
        lemma_bit_length_of_word(v);
    }
    while v > 0
        invariant
            bits + bit_length(v as nat) == bit_length((value - 1) as nat),
            bit_length((value - 1) as nat) <= 64,
        decreases v,
    {
        proof {
            vstd::bits::lemma_usize_shr_is_div(v, 1);
            vstd::arithmetic::power2::lemma2_to64();
        }
        bits += 1;
        v >>= 1;
    }
    bits
}

/// Returns an upper bound on the number of comparisons that ranking `n`
/// items may need: `spec_estimate_turns(n)`.
///
/// The bound has to fit a machine word; [`lemma_estimate_turns_fits`] shows
/// that it does for every `n` up to `usize::MAX / 64`.
pub fn estimate_turns(n: usize) -> (turns: usize)
    requires
        spec_estimate_turns(n as nat) <= usize::MAX,
    ensures
        turns == spec_estimate_turns(n as nat),
    decreases n,
{
    if n <= 1 {
        return 0;
    }
    let num_pairs: usize = n / 2;
    let mut total: usize = num_pairs + estimate_turns(num_pairs);

    let mut chain_len: usize = num_pairs + 1;
    while chain_len < n
        invariant
            num_pairs == n / 2,
            n >= 2,
            num_pairs + 1 <= chain_len <= n,
            total == num_pairs + spec_estimate_turns(num_pairs as nat) + search_cost(
                (num_pairs + 1) as nat,
                chain_len as nat,
            ),
            spec_estimate_turns(n as nat) <= usize::MAX,
        decreases n - chain_len,
    {
        proof {
            lemma_search_cost_extend((num_pairs + 1) as nat, (chain_len + 1) as nat, n as nat);
        }
        total += ceil_log2(chain_len + 1);
        chain_len += 1;
    }
    total
}

} // verus!
