//! Counting, summing and maximum over mathematical sequences, with the
//! induction lemmas the analyzer's contracts are proved from.

use vstd::prelude::*;

verus! {

/// Number of elements of `s` equal to `x`.
pub open spec fn count_eq<A>(s: Seq<A>, x: A) -> int
    decreases s.len(),
{
    if s.len() == 0 {
        0
    } else {
        count_eq(s.drop_last(), x) + if s.last() == x {
            1int
        } else {
            0int
        }
    }
}

/// Number of elements of `s` that are `>= k`.
pub open spec fn count_ge(s: Seq<int>, k: int) -> int
    decreases s.len(),
{
    if s.len() == 0 {
        0
    } else {
        count_ge(s.drop_last(), k) + if s.last() >= k {
            1int
        } else {
            0int
        }
    }
}

/// Number of elements of `s` that are `< b`.
pub open spec fn count_lt(s: Seq<int>, b: int) -> int
    decreases s.len(),
{
    if s.len() == 0 {
        0
    } else {
        count_lt(s.drop_last(), b) + if s.last() < b {
            1int
        } else {
            0int
        }
    }
}

/// Sum of the elements of `s`.
pub open spec fn sum_of(s: Seq<int>) -> int
    decreases s.len(),
{
    if s.len() == 0 {
        0
    } else {
        sum_of(s.drop_last()) + s.last()
    }
}

/// Sum of the squares of the elements of `s`.
pub open spec fn sum_sq_of(s: Seq<int>) -> int
    decreases s.len(),
{
    if s.len() == 0 {
        0
    } else {
        sum_sq_of(s.drop_last()) + s.last() * s.last()
    }
}

/// Maximum element of a non-empty `s`.
pub open spec fn max_of(s: Seq<int>) -> int
    recommends
        s.len() > 0,
    decreases s.len(),
{
    if s.len() <= 1 {
        s[0]
    } else if s.last() >= max_of(s.drop_last()) {
        s.last()
    } else {
        max_of(s.drop_last())
    }
}

/// A sequence of machine integers as mathematical integers.
pub open spec fn to_ints(s: Seq<usize>) -> Seq<int> {
    Seq::new(s.len(), |i: int| s[i] as int)
}

/// The absolute difference of two integers.
pub open spec fn abs_diff(a: int, b: int) -> int {
    if a >= b {
        a - b
    } else {
        b - a
    }
}

/// Every element is `>= 0`, so every element is counted by `count_ge(s, 0)`.
pub proof fn lemma_count_ge_zero_is_len(s: Seq<int>)
    requires
        forall|i: int| 0 <= i < s.len() ==> s[i] >= 0,
    ensures
        count_ge(s, 0) == s.len(),
    decreases s.len(),
{
    if s.len() > 0 {
        lemma_count_ge_zero_is_len(s.drop_last());
    }
}

/// The survival count is weakly decreasing in the threshold: raising the
/// threshold can only drop elements from the count.
pub proof fn lemma_count_ge_antitone(s: Seq<int>, j: int, k: int)
    requires
        j <= k,
    ensures
        count_ge(s, k) <= count_ge(s, j),
    decreases s.len(),
{
    if s.len() > 0 {
        lemma_count_ge_antitone(s.drop_last(), j, k);
    }
}

/// Splitting the elements `< b + 1` into those `< b` and those `== b`.
pub proof fn lemma_count_lt_step(s: Seq<int>, b: int)
    ensures
        count_lt(s, b + 1) == count_lt(s, b) + count_eq(s, b),
    decreases s.len(),
{
    if s.len() > 0 {
        lemma_count_lt_step(s.drop_last(), b);
    }
}

pub proof fn lemma_count_lt_zero(s: Seq<int>)
    requires
        forall|i: int| 0 <= i < s.len() ==> s[i] >= 0,
    ensures
        count_lt(s, 0) == 0,
    decreases s.len(),
{
    if s.len() > 0 {
        lemma_count_lt_zero(s.drop_last());
    }
}

pub proof fn lemma_count_lt_all(s: Seq<int>, b: int)
    requires
        forall|i: int| 0 <= i < s.len() ==> s[i] < b,
    ensures
        count_lt(s, b) == s.len(),
    decreases s.len(),
{
    if s.len() > 0 {
        lemma_count_lt_all(s.drop_last(), b);
    }
}

/// No element exceeds `m`, so nothing above `m` is ever counted.
pub proof fn lemma_count_eq_above_max(s: Seq<int>, m: int, k: int)
    requires
        forall|i: int| 0 <= i < s.len() ==> s[i] <= m,
        k > m,
    ensures
        count_eq(s, k) == 0,
    decreases s.len(),
{
    if s.len() > 0 {
        lemma_count_eq_above_max(s.drop_last(), m, k);
    }
}

/// Every element is non-negative, so nothing below zero is ever counted.
pub proof fn lemma_count_eq_negative(s: Seq<int>, k: int)
    requires
        forall|i: int| 0 <= i < s.len() ==> s[i] >= 0,
        k < 0,
    ensures
        count_eq(s, k) == 0,
    decreases s.len(),
{
    if s.len() > 0 {
        lemma_count_eq_negative(s.drop_last(), k);
    }
}

pub proof fn lemma_sum_nonneg(s: Seq<int>)
    requires
        forall|i: int| 0 <= i < s.len() ==> s[i] >= 0,
    ensures
        sum_of(s) >= 0,
    decreases s.len(),
{
    if s.len() > 0 {
        lemma_sum_nonneg(s.drop_last());
    }
}

/// For non-negative elements the sum of squares is at most the square of the
/// sum: the cross terms of the squared sum are non-negative.
pub proof fn lemma_sum_sq_le_sq_of_sum(s: Seq<int>)
    requires
        forall|i: int| 0 <= i < s.len() ==> s[i] >= 0,
    ensures
        0 <= sum_sq_of(s) <= sum_of(s) * sum_of(s),
    decreases s.len(),
{
    if s.len() > 0 {
        let t = s.drop_last();
        let x = s.last();
        lemma_sum_sq_le_sq_of_sum(t);
        lemma_sum_nonneg(t);
        assert(sum_of(t) * sum_of(t) + x * x <= (sum_of(t) + x) * (sum_of(t) + x)) by (nonlinear_arith)
            requires
                sum_of(t) >= 0,
                x >= 0,
        ;
    }
}

/// Every element of a non-empty sequence is bounded by its maximum.
pub proof fn lemma_max_of_bounds(s: Seq<int>)
    requires
        s.len() > 0,
    ensures
        forall|i: int| 0 <= i < s.len() ==> s[i] <= max_of(s),
        exists|i: int| 0 <= i < s.len() && s[i] == max_of(s),
    decreases s.len(),
{
    if s.len() == 1 {
        assert(s[0] == max_of(s));
    } else {
        lemma_max_of_bounds(s.drop_last());
        assert(forall|i: int| 0 <= i < s.len() - 1 ==> s[i] == s.drop_last()[i]);
        if s.last() >= max_of(s.drop_last()) {
            assert(s[s.len() - 1] == max_of(s));
        } else {
            let i = choose|i: int| 0 <= i < s.len() - 1 && s.drop_last()[i] == max_of(s.drop_last());
            assert(s[i] == max_of(s));
        }
    }
}

} // verus!
