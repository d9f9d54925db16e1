//! Mathematical model of a stream of observations: a `Seq<int>` of values in
//! units, with the sums and order statistics the estimators are specified
//! against, and the laws that relate them.

use vstd::prelude::*;

verus! {

/// Sum of the values of a sequence.
pub open spec fn seq_sum(s: Seq<int>) -> int
    decreases s.len(),
{
    if s.len() == 0 {
        0
    } else {
        seq_sum(s.drop_last()) + s.last()
    }
}

/// Sum of the squared values of a sequence.
pub open spec fn seq_sum_sq(s: Seq<int>) -> int
    decreases s.len(),
{
    if s.len() == 0 {
        0
    } else {
        seq_sum_sq(s.drop_last()) + s.last() * s.last()
    }
}

/// Least value of a non-empty sequence.
pub open spec fn seq_min(s: Seq<int>) -> int
    recommends
        s.len() > 0,
    decreases s.len(),
{
    if s.len() <= 1 {
        s[0]
    } else if s.last() <= seq_min(s.drop_last()) {
        s.last()
    } else {
        seq_min(s.drop_last())
    }
}

/// Greatest value of a non-empty sequence.
pub open spec fn seq_max(s: Seq<int>) -> int
    recommends
        s.len() > 0,
    decreases s.len(),
{
    if s.len() <= 1 {
        s[0]
    } else if s.last() >= seq_max(s.drop_last()) {
        s.last()
    } else {
        seq_max(s.drop_last())
    }
}

/// All values of the sequence have magnitude at most `b`.
pub open spec fn all_within(s: Seq<int>, b: int) -> bool {
    forall|i: int| 0 <= i < s.len() ==> -b <= #[trigger] s[i] <= b
}

/// Folding one more value extends the sums pointwise.
pub proof fn lemma_sums_push(s: Seq<int>, x: int)
    ensures
        seq_sum(s.push(x)) == seq_sum(s) + x,
        seq_sum_sq(s.push(x)) == seq_sum_sq(s) + x * x,
{
    assert(s.push(x).drop_last() =~= s);
    assert(s.push(x).last() == x);
}

/// Folding one more value moves the extrema as expected.
pub proof fn lemma_extrema_push(s: Seq<int>, x: int)
    requires
        s.len() > 0,
    ensures
        seq_min(s.push(x)) == if x <= seq_min(s) { x } else { seq_min(s) },
        seq_max(s.push(x)) == if x >= seq_max(s) { x } else { seq_max(s) },
{
    assert(s.push(x).drop_last() =~= s);
    assert(s.push(x).last() == x);
    assert(s.push(x).len() > 1);
}

/// The minimum is attained and is a lower bound.
pub proof fn lemma_min_is_least(s: Seq<int>)
    requires
        s.len() > 0,
    ensures
        s.contains(seq_min(s)),
        forall|i: int| 0 <= i < s.len() ==> seq_min(s) <= #[trigger] s[i],
    decreases s.len(),
{
    if s.len() == 1 {
        assert(s[0] == seq_min(s));
    } else {
        lemma_min_is_least(s.drop_last());
        if s.last() <= seq_min(s.drop_last()) {
            assert(s[s.len() - 1] == seq_min(s));
        } else {
            let j = choose|j: int|
                0 <= j < s.drop_last().len() && s.drop_last()[j] == seq_min(s.drop_last());
            assert(s[j] == seq_min(s));
        }
        assert forall|i: int| 0 <= i < s.len() implies seq_min(s) <= #[trigger] s[i] by {
            if i < s.len() - 1 {
                assert(s.drop_last()[i] == s[i]);
            }
        }
    }
}

/// The maximum is attained and is an upper bound.
pub proof fn lemma_max_is_greatest(s: Seq<int>)
    requires
        s.len() > 0,
    ensures
        s.contains(seq_max(s)),
        forall|i: int| 0 <= i < s.len() ==> #[trigger] s[i] <= seq_max(s),
    decreases s.len(),
{
    if s.len() == 1 {
        assert(s[0] == seq_max(s));
    } else {
        lemma_max_is_greatest(s.drop_last());
        if s.last() >= seq_max(s.drop_last()) {
            assert(s[s.len() - 1] == seq_max(s));
        } else {
            let j = choose|j: int|
                0 <= j < s.drop_last().len() && s.drop_last()[j] == seq_max(s.drop_last());
            assert(s[j] == seq_max(s));
        }
        assert forall|i: int| 0 <= i < s.len() implies #[trigger] s[i] <= seq_max(s) by {
            if i < s.len() - 1 {
                assert(s.drop_last()[i] == s[i]);
            }
        }
    }
}

/// Sum of squared deviations, scaled: the value of `sum` of `(a*x - b)^2`
/// over the elements `x` of the sequence.
pub open spec fn seq_dev_sq_sum(s: Seq<int>, a: int, b: int) -> int
    decreases s.len(),
{
    if s.len() == 0 {
        0
    } else {
        seq_dev_sq_sum(s.drop_last(), a, b) + (a * s.last() - b) * (a * s.last() - b)
    }
}

proof fn lemma_dev_expand(s: Seq<int>, a: int, b: int)
    ensures
        seq_dev_sq_sum(s, a, b) == a * a * seq_sum_sq(s) - 2 * a * b * seq_sum(s) + s.len() * (b
            * b),
        seq_dev_sq_sum(s, a, b) >= 0,
    decreases s.len(),
{
    if s.len() > 0 {
        lemma_dev_expand(s.drop_last(), a, b);
        let x = s.last();
        assert((a * x - b) * (a * x - b) == a * a * (x * x) - 2 * a * b * x + b * b
            && (a * x - b) * (a * x - b) >= 0) by (nonlinear_arith);
        assert((s.len() - 1) * (b * b) + b * b == s.len() * (b * b)) by (nonlinear_arith);
        assert(a * a * seq_sum_sq(s) == a * a * seq_sum_sq(s.drop_last()) + a * a * (x * x)
            && 2 * a * b * seq_sum(s) == 2 * a * b * seq_sum(s.drop_last()) + 2 * a * b * x)
            by (nonlinear_arith)
            requires
                seq_sum_sq(s) == seq_sum_sq(s.drop_last()) + x * x,
                seq_sum(s) == seq_sum(s.drop_last()) + x,
        ;
    }
}

/// The single-pass variance numerator agrees exactly with the two-pass
/// computation: `n * (n * sum_sq - sum^2)` is the sum over the stream of
/// `(n*x - sum)^2`, i.e. `(sum_sq*n - sum^2) / n^2` equals
/// `(1/n) * sum of (x - mean)^2` with `mean = sum / n`; in particular the
/// variance numerator is never negative.
pub proof fn lemma_variance_matches_two_pass(s: Seq<int>)
    requires
        s.len() > 0,
    ensures
        s.len() * (s.len() * seq_sum_sq(s) - seq_sum(s) * seq_sum(s)) == seq_dev_sq_sum(
            s,
            s.len() as int,
            seq_sum(s),
        ),
        s.len() * seq_sum_sq(s) - seq_sum(s) * seq_sum(s) >= 0,
{
    let n = s.len() as int;
    let sm = seq_sum(s);
    lemma_dev_expand(s, n, sm);
    assert(n * n * seq_sum_sq(s) - 2 * n * sm * sm + n * (sm * sm) == n * (n * seq_sum_sq(s) - sm
        * sm)) by (nonlinear_arith);
    assert(n * (n * seq_sum_sq(s) - sm * sm) >= 0 && n > 0 ==> n * seq_sum_sq(s) - sm * sm >= 0)
        by (nonlinear_arith);
}

proof fn lemma_sum_as_fold(s: Seq<int>, b: int)
    ensures
        s.fold_right(|x: int, acc: int| x + acc, b) == seq_sum(s) + b,
        s.fold_right(|x: int, acc: int| x * x + acc, b) == seq_sum_sq(s) + b,
    decreases s.len(),
{
    if s.len() > 0 {
        lemma_sum_as_fold(s.drop_last(), s.last() + b);
        lemma_sum_as_fold(s.drop_last(), s.last() * s.last() + b);
    }
}

/// Order insensitivity: two streams that hold the same multiset of values
/// have the same length, sum, sum of squares, minimum and maximum — so the
/// count, min, max, and the exact mean and variance of a run do not depend
/// on the order in which the values arrive.
pub proof fn lemma_order_insensitive(s1: Seq<int>, s2: Seq<int>)
    requires
        s1.to_multiset() == s2.to_multiset(),
    ensures
        s1.len() == s2.len(),
        seq_sum(s1) == seq_sum(s2),
        seq_sum_sq(s1) == seq_sum_sq(s2),
        s1.len() > 0 ==> seq_min(s1) == seq_min(s2),
        s1.len() > 0 ==> seq_max(s1) == seq_max(s2),
{
    broadcast use vstd::seq_lib::group_to_multiset_ensures;

    assert(s1.to_multiset().len() == s1.len());
    assert(s2.to_multiset().len() == s2.len());
    let fs = |x: int, acc: int| x + acc;
    let fq = |x: int, acc: int| x * x + acc;
    assert(vstd::seq_lib::commutative_foldr(fs));
    assert(vstd::seq_lib::commutative_foldr(fq));
    vstd::seq_lib::lemma_fold_right_permutation(s1, s2, fs, 0);
    vstd::seq_lib::lemma_fold_right_permutation(s1, s2, fq, 0);
    lemma_sum_as_fold(s1, 0);
    lemma_sum_as_fold(s2, 0);
    if s1.len() > 0 {
        lemma_min_is_least(s1);
        lemma_min_is_least(s2);
        lemma_max_is_greatest(s1);
        lemma_max_is_greatest(s2);
        assert(s1.to_multiset().count(seq_min(s1)) > 0);
        assert(s2.to_multiset().count(seq_min(s2)) > 0);
        assert(s1.to_multiset().count(seq_max(s1)) > 0);
        assert(s2.to_multiset().count(seq_max(s2)) > 0);
        assert(s2.contains(seq_min(s1)));
        assert(s1.contains(seq_min(s2)));
        assert(s2.contains(seq_max(s1)));
        assert(s1.contains(seq_max(s2)));
    }
}

/// Bounded values give a bounded sum.
pub proof fn lemma_sum_bound(s: Seq<int>, b: int)
    requires
        all_within(s, b),
        b >= 0,
    ensures
        -(s.len() * b) <= seq_sum(s) <= s.len() * b,
    decreases s.len(),
{
    if s.len() > 0 {
        assert(all_within(s.drop_last(), b)) by {
            assert(forall|i: int|
                0 <= i < s.len() - 1 ==> #[trigger] s.drop_last()[i] == s[i]);
        }
        lemma_sum_bound(s.drop_last(), b);
        assert((s.len() - 1) * b + b == s.len() * b) by (nonlinear_arith);
    }
}

/// Bounded values give a bounded sum of squares.
pub proof fn lemma_sum_sq_bound(s: Seq<int>, b: int)
    requires
        all_within(s, b),
        b >= 0,
    ensures
        0 <= seq_sum_sq(s) <= s.len() * (b * b),
    decreases s.len(),
{
    if s.len() > 0 {
        assert(all_within(s.drop_last(), b)) by {
            assert(forall|i: int|
                0 <= i < s.len() - 1 ==> #[trigger] s.drop_last()[i] == s[i]);
        }
        lemma_sum_sq_bound(s.drop_last(), b);
        assert(s.last() * s.last() <= b * b) by (nonlinear_arith)
            requires -b <= s.last() <= b, b >= 0;
        assert(s.last() * s.last() >= 0) by (nonlinear_arith);
        assert((s.len() - 1) * (b * b) + b * b == s.len() * (b * b)) by (nonlinear_arith);
    }
}

} // verus!
