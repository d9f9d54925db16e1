//! Single-pass mean and population variance, exact.
//!
//! The state holds the count and the exact integer sums of values and of
//! squared values. Over exact arithmetic the incremental mean/variance
//! recurrence (mean moves by `(x - mean)/count`, the squared-deviation sum
//! by `(x - mean_before) * (x - mean_after)`) computes the same function as
//! these sums, so the accessors can return the mean `sum / count` and the
//! population variance `(count * sum_sq - sum^2) / count^2` as exact
//! rationals, with no rounding anywhere in the pass.

use vstd::prelude::*;

use crate::model::{
    all_within, lemma_sum_bound, lemma_sum_sq_bound, lemma_sums_push, seq_sum, seq_sum_sq,
};
use crate::{MAX_ABS, MAX_COUNT};

verus! {

/// An exact rational number; `den` is always positive.
#[derive(Clone, Copy, Debug, PartialEq, Eq, Structural)]
pub struct Ratio {
    pub num: i128,
    pub den: i128,
}

/// Running count, sum of values, and sum of squared values.
pub struct MeanVariance {
    pub count: u64,
    pub sum: i128,
    pub sum_sq: i128,
    /// The observations folded in so far, in order.
    pub obs: Ghost<Seq<int>>,
}

impl MeanVariance {
    /// Internal consistency: the fields are exactly the count, the sum and
    /// the sum of squares of the stream, whose values all fit the accepted
    /// magnitude.
    pub open spec fn wf(self) -> bool {
        &&& self.count == self.obs@.len()
        &&& self.count <= MAX_COUNT
        &&& all_within(self.obs@, MAX_ABS as int)
        &&& self.sum == seq_sum(self.obs@)
        &&& self.sum_sq == seq_sum_sq(self.obs@)
    }

    pub fn new() -> (r: MeanVariance)
        ensures
            r.wf(),
            r.obs@ == Seq::<int>::empty(),
    {
        MeanVariance { count: 0, sum: 0, sum_sq: 0, obs: Ghost(Seq::empty()) }
    }

    /// Fold one observation in.
    pub fn update(&mut self, x: i64)
        requires
            old(self).wf(),
            old(self).count < MAX_COUNT,
            -MAX_ABS <= x <= MAX_ABS,
        ensures
            final(self).wf(),
            final(self).obs@ == old(self).obs@.push(x as int),
    {
        proof {
            lemma_sums_push(self.obs@, x as int);
            lemma_sum_bound(self.obs@, MAX_ABS as int);
            lemma_sum_sq_bound(self.obs@, MAX_ABS as int);
            assert(self.obs@.len() * (MAX_ABS as int) <= MAX_COUNT as int * MAX_ABS as int)
                by (nonlinear_arith)
                requires
                    self.obs@.len() <= MAX_COUNT as int,
            ;
            assert(self.obs@.len() * (MAX_ABS as int * MAX_ABS as int) <= MAX_COUNT as int * (
            MAX_ABS as int * MAX_ABS as int)) by (nonlinear_arith)
                requires
                    self.obs@.len() <= MAX_COUNT as int,
            ;
            assert(x as int * x as int <= MAX_ABS as int * MAX_ABS as int) by (nonlinear_arith)
                requires
                    -MAX_ABS <= x <= MAX_ABS,
            ;
            assert(x as int * x as int >= 0) by (nonlinear_arith);
        }
        self.count = self.count + 1;
        self.sum = self.sum + x as i128;
        self.sum_sq = self.sum_sq + (x as i128) * (x as i128);
        proof {
            self.obs@ = self.obs@.push(x as int);
            assert(all_within(self.obs@, MAX_ABS as int)) by {
                assert(forall|i: int|
                    0 <= i < old(self).obs@.len() ==> #[trigger] self.obs@[i] == old(
                        self,
                    ).obs@[i]);
            }
        }
    }

    /// The exact mean `sum / count` of the stream, absent before any update.
    pub fn mean(&self) -> (r: Option<Ratio>)
        requires
            self.wf(),
        ensures
            r is Some <==> self.obs@.len() > 0,
            r is Some ==> r->Some_0 == (Ratio {
                num: seq_sum(self.obs@) as i128,
                den: self.obs@.len() as i128,
            }),
    {
        proof {
            lemma_sum_bound(self.obs@, MAX_ABS as int);
        }
        if self.count == 0 {
            None
        } else {
            Some(Ratio { num: self.sum, den: self.count as i128 })
        }
    }

    /// The exact population variance `(count * sum_sq - sum^2) / count^2`
    /// of the stream, absent before any update.
    pub fn variance(&self) -> (r: Option<Ratio>)
        requires
            self.wf(),
        ensures
            r is Some <==> self.obs@.len() > 0,
            r is Some ==> r->Some_0 == (Ratio {
                num: (self.obs@.len() * seq_sum_sq(self.obs@) - seq_sum(self.obs@) * seq_sum(
                    self.obs@,
                )) as i128,
                den: (self.obs@.len() * self.obs@.len()) as i128,
            }),
            r is Some ==> r->Some_0.num >= 0 && r->Some_0.den > 0,
    {
        if self.count == 0 {
            None
        } else {
            proof {
                lemma_sum_bound(self.obs@, MAX_ABS as int);
                lemma_sum_sq_bound(self.obs@, MAX_ABS as int);
                crate::model::lemma_variance_matches_two_pass(self.obs@);
                let n = self.obs@.len() as int;
                let ssq = seq_sum_sq(self.obs@);
                let s = seq_sum(self.obs@);
                assert(-10000000000000000000 <= s <= 10000000000000000000
                    && 0 <= ssq <= 10000000000000000000000000000) by (nonlinear_arith)
                    requires
                        0 < n <= 10000000000,
                        0 <= ssq <= n * (1000000000 * 1000000000),
                        -(n * 1000000000) <= s <= n * 1000000000,
                ;
                assert(0 <= n * ssq <= 100000000000000000000000000000000000000
                    && 0 <= s * s <= 100000000000000000000000000000000000000
                    && 0 < n * n <= 100000000000000000000) by (nonlinear_arith)
                    requires
                        0 < n <= 10000000000,
                        0 <= ssq <= 10000000000000000000000000000,
                        -10000000000000000000 <= s <= 10000000000000000000,
                ;
            }
            let n = self.count as i128;
            Some(Ratio { num: n * self.sum_sq - self.sum * self.sum, den: n * n })
        }
    }
}

} // verus!
