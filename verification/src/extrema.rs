//! Running minimum and maximum of the stream, exact.

use vstd::prelude::*;

use crate::model::{all_within, lemma_extrema_push, seq_max, seq_min};
use crate::MAX_ABS;

verus! {

/// Tracks the least and greatest observation seen so far. Before the first
/// update the fields hold the neutral sentinels (the integer analogue of the
/// usual +infinity / -infinity start); reporting layers must consult the
/// count and not leak them.
pub struct Extrema {
    pub min: i64,
    pub max: i64,
    /// The observations folded in so far, in order.
    pub obs: Ghost<Seq<int>>,
}

impl Extrema {
    /// Internal consistency: once any observation is in, `min` and `max` are
    /// exactly the least and greatest value of the stream.
    pub open spec fn wf(self) -> bool {
        &&& all_within(self.obs@, MAX_ABS as int)
        &&& self.obs@.len() == 0 ==> (self.min == i64::MAX && self.max == i64::MIN)
        &&& self.obs@.len() > 0 ==> (self.min == seq_min(self.obs@) && self.max == seq_max(
            self.obs@,
        ))
    }

    pub fn new() -> (r: Extrema)
        ensures
            r.wf(),
            r.obs@ == Seq::<int>::empty(),
    {
        Extrema { min: i64::MAX, max: i64::MIN, obs: Ghost(Seq::empty()) }
    }

    /// Fold one observation in: `min` and `max` move to the new extremes.
    pub fn update(&mut self, x: i64)
        requires
            old(self).wf(),
            -MAX_ABS <= x <= MAX_ABS,
        ensures
            final(self).wf(),
            final(self).obs@ == old(self).obs@.push(x as int),
    {
        proof {
            if self.obs@.len() > 0 {
                lemma_extrema_push(self.obs@, x as int);
            } else {
                assert(self.obs@.push(x as int) =~= seq![x as int]);
            }
        }
        if x < self.min {
            self.min = x;
        }
        if x > self.max {
            self.max = x;
        }
        proof {
            self.obs@ = self.obs@.push(x as int);
        }
    }
}

} // verus!
