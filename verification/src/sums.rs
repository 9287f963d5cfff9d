//! Finite sums over slot ranges, the arithmetic behind the tree's
//! aggregate sizes and counts.

use vstd::prelude::*;

verus! {

/// `f(0) + f(1) + ... + f(k - 1)`.
pub open spec fn sum_to(f: spec_fn(int) -> int, k: int) -> int
    decreases k,
{
    if k <= 0 {
        0
    } else {
        sum_to(f, k - 1) + f(k - 1)
    }
}

/// Sums of functions that agree below `k` agree.
pub proof fn lemma_sum_ext(f: spec_fn(int) -> int, g: spec_fn(int) -> int, k: int)
    requires
        forall|i: int| 0 <= i < k ==> #[trigger] f(i) == g(i),
    ensures
        sum_to(f, k) == sum_to(g, k),
    decreases k,
{
    if k > 0 {
        lemma_sum_ext(f, g, k - 1);
    }
}

/// Pointwise `f <= g` below `k` gives `sum f <= sum g`.
pub proof fn lemma_sum_le(f: spec_fn(int) -> int, g: spec_fn(int) -> int, k: int)
    requires
        forall|i: int| 0 <= i < k ==> #[trigger] f(i) <= g(i),
    ensures
        sum_to(f, k) <= sum_to(g, k),
    decreases k,
{
    if k > 0 {
        lemma_sum_le(f, g, k - 1);
    }
}

/// A sum of non-negative terms is non-negative.
pub proof fn lemma_sum_nonneg(f: spec_fn(int) -> int, k: int)
    requires
        forall|i: int| 0 <= i < k ==> #[trigger] f(i) >= 0,
    ensures
        sum_to(f, k) >= 0,
    decreases k,
{
    if k > 0 {
        lemma_sum_nonneg(f, k - 1);
    }
}

/// Extending the range past `k` with zero terms keeps the sum.
pub proof fn lemma_sum_zero_tail(f: spec_fn(int) -> int, k: int, n: int)
    requires
        0 <= k <= n,
        forall|i: int| k <= i < n ==> #[trigger] f(i) == 0,
    ensures
        sum_to(f, n) == sum_to(f, k),
    decreases n - k,
{
    if n > k {
        lemma_sum_zero_tail(f, k, n - 1);
    }
}

/// Functions that differ at one index `j < k` have sums that differ by the
/// difference there.
pub proof fn lemma_sum_point(f: spec_fn(int) -> int, g: spec_fn(int) -> int, j: int, k: int)
    requires
        0 <= j < k,
        forall|i: int| 0 <= i < k && i != j ==> #[trigger] f(i) == g(i),
    ensures
        sum_to(g, k) == sum_to(f, k) - f(j) + g(j),
    decreases k,
{
    if k - 1 == j {
        lemma_sum_ext(f, g, k - 1);
    } else {
        lemma_sum_point(f, g, j, k - 1);
    }
}

/// The sum of `f + g` is the sum of `f` plus the sum of `g`.
pub proof fn lemma_sum_add(f: spec_fn(int) -> int, g: spec_fn(int) -> int, h: spec_fn(int) -> int, k: int)
    requires
        forall|i: int| 0 <= i < k ==> #[trigger] h(i) == f(i) + g(i),
    ensures
        sum_to(h, k) == sum_to(f, k) + sum_to(g, k),
    decreases k,
{
    if k > 0 {
        lemma_sum_add(f, g, h, k - 1);
    }
}

/// A sum of terms that are zero except at `j` is the term at `j`.
pub proof fn lemma_sum_single(f: spec_fn(int) -> int, j: int, k: int)
    requires
        0 <= j < k,
        forall|i: int| 0 <= i < k && i != j ==> #[trigger] f(i) == 0,
    ensures
        sum_to(f, k) == f(j),
{
    let z = |i: int| 0int;
    lemma_sum_ext(z, z, k);
    lemma_sum_zero_const(k);
    lemma_sum_point(z, f, j, k);
}

proof fn lemma_sum_zero_const(k: int)
    ensures
        sum_to(|i: int| 0int, k) == 0,
    decreases k,
{
    if k > 0 {
        lemma_sum_zero_const(k - 1);
    }
}

/// A sum of terms that are all zero is zero.
pub proof fn lemma_sum_zero(f: spec_fn(int) -> int, k: int)
    requires
        forall|i: int| 0 <= i < k ==> #[trigger] f(i) == 0,
    ensures
        sum_to(f, k) == 0,
    decreases k,
{
    if k > 0 {
        lemma_sum_zero(f, k - 1);
    }
}

/// A sum of 0/1 terms is at most the number of terms.
pub proof fn lemma_sum_count_bound(f: spec_fn(int) -> int, k: int)
    requires
        0 <= k,
        forall|i: int| 0 <= i < k ==> 0 <= #[trigger] f(i) <= 1,
    ensures
        0 <= sum_to(f, k) <= k,
    decreases k,
{
    if k > 0 {
        lemma_sum_count_bound(f, k - 1);
    }
}

} // verus!
