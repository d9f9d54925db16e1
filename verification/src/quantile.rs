//! Streaming quantile estimation: the P² (piecewise-parabolic) algorithm.
//!
//! One estimator approximates the value at a single target quantile
//! `p = p_num / p_den` from a one-pass stream in constant memory. The first
//! five observations are buffered in sorted order; the fifth turns the
//! buffer into five markers (rank, height). Every later observation finds
//! its bracket, shifts the marker ranks above it, and nudges each interior
//! marker whose rank has drifted at least one place from its ideal rank,
//! by a parabolic height interpolation when that keeps the heights
//! monotone, by a linear one otherwise. The monotone fallback is what makes
//! the middle marker's height a sound estimate: it always stays between the
//! exact running minimum and maximum.

use vstd::prelude::*;

use vstd::arithmetic::div_mod::lemma_div_nonincreasing;
use vstd::relations::{sorted_by, total_ordering};
use vstd::seq_lib::lemma_sorted_unique;

use crate::model::{all_within, lemma_extrema_push, lemma_min_is_least, lemma_max_is_greatest, seq_max, seq_min};
use crate::{MAX_ABS, MAX_COUNT};

verus! {

/// The values of the buffer, as mathematical integers.
pub open spec fn buf_model(b: Seq<i64>) -> Seq<int> {
    b.map_values(|v: i64| v as int)
}

/// Non-decreasing sequence.
pub open spec fn ascending(s: Seq<int>) -> bool {
    forall|i: int, j: int| 0 <= i <= j < s.len() ==> s[i] <= s[j]
}

/// The observations rearranged into non-decreasing order.
pub open spec fn sorted_view(s: Seq<int>) -> Seq<int> {
    s.sort_by(|a: int, b: int| a <= b)
}

/// The five marker heights and ranks of one estimator, as mathematical
/// integers: the state the P² recurrence below is stated over.
pub struct Markers {
    pub h1: int,
    pub h2: int,
    pub h3: int,
    pub h4: int,
    pub h5: int,
    pub n1: int,
    pub n2: int,
    pub n3: int,
    pub n4: int,
    pub n5: int,
}

/// The bracket an observation falls in, judged against the heights before
/// any extreme is extended: 1 below the second marker, 4 from the fourth
/// marker up (the extremes absorb equal values).
pub open spec fn p2_bracket(m: Markers, x: int) -> int {
    if x < m.h2 {
        1
    } else if x < m.h3 {
        2
    } else if x < m.h4 {
        3
    } else {
        4
    }
}

/// The height of a marker whose rank moves one place up (`up`) or down:
/// the piecewise-parabolic prediction when it stays strictly between the
/// neighbour heights, else linear interpolation toward the neighbour the
/// rank moved to. Divisions are floor divisions of non-negative numerators
/// by positive denominators.
pub open spec fn p2_height_spec(
    hm: int,
    h: int,
    hp: int,
    nm: int,
    n: int,
    np: int,
    up: bool,
) -> int {
    let a = n - nm;
    let b = np - n;
    let dqp = hp - h;
    let dqm = h - hm;
    let n0 = if up {
        (a + 1) * dqp * a + (b - 1) * dqm * b
    } else {
        (a - 1) * dqp * a + (b + 1) * dqm * b
    };
    let den = a * b * (a + b);
    let step = n0 / den;
    let cand = if up {
        h + step
    } else {
        h - step
    };
    if hm < cand && cand < hp {
        cand
    } else if up {
        h + (hp - h) / (np - n)
    } else {
        h - (h - hm) / (n - nm)
    }
}

/// One interior marker's adjustment: when the rank has drifted at least
/// one place (the ideal rank is `des_scaled / scale`), the rank moves one
/// place toward it and the height is re-estimated; otherwise both stay.
pub open spec fn p2_adjust_spec(
    hm: int,
    h: int,
    hp: int,
    nm: int,
    n: int,
    np: int,
    des_scaled: int,
    scale: int,
) -> (int, int) {
    let d = des_scaled - n * scale;
    if d >= scale && np - n > 1 {
        (p2_height_spec(hm, h, hp, nm, n, np, true), n + 1)
    } else if d <= -scale && n - nm > 1 {
        (p2_height_spec(hm, h, hp, nm, n, np, false), n - 1)
    } else {
        (h, n)
    }
}

/// One full steady-state P² step on the marker state: extend an extreme
/// when the observation lies beyond it, shift the ranks of every marker
/// above the bracket, recompute the ideal ranks from the target quantile
/// and the new count (`n5`), and adjust the three interior markers in
/// order. Ideal ranks are held scaled by `2 * p_den` so they stay
/// integers: marker 2 wants `1 + (c-1)p/2`, marker 3 `1 + (c-1)p`,
/// marker 4 `1 + (c-1)(1+p)/2`.
pub open spec fn p2_step(m: Markers, x: int, p_num: int, p_den: int) -> Markers {
    let k = p2_bracket(m, x);
    let h1 = if x < m.h1 {
        x
    } else {
        m.h1
    };
    let h5 = if x > m.h5 {
        x
    } else {
        m.h5
    };
    let n2 = if k < 2 {
        m.n2 + 1
    } else {
        m.n2
    };
    let n3 = if k < 3 {
        m.n3 + 1
    } else {
        m.n3
    };
    let n4 = if k < 4 {
        m.n4 + 1
    } else {
        m.n4
    };
    let n5 = m.n5 + 1;
    let scale = 2 * p_den;
    let c1 = n5 - 1;
    let des2 = scale + c1 * p_num;
    let des3 = scale + 2 * (c1 * p_num);
    let des4 = scale + c1 * (p_den + p_num);
    let a2 = p2_adjust_spec(h1, m.h2, m.h3, m.n1, n2, n3, des2, scale);
    let a3 = p2_adjust_spec(a2.0, m.h3, m.h4, a2.1, n3, n4, des3, scale);
    let a4 = p2_adjust_spec(a3.0, m.h4, h5, a3.1, n4, n5, des4, scale);
    Markers {
        h1,
        h2: a2.0,
        h3: a3.0,
        h4: a4.0,
        h5,
        n1: m.n1,
        n2: a2.1,
        n3: a3.1,
        n4: a4.1,
        n5,
    }
}

/// The marker state after folding a whole stream: the five sorted values
/// with ranks 1 to 5 once five observations are in, then one `p2_step` per
/// further observation. The estimator's state is this function of the
/// stream and of nothing else.
pub open spec fn p2_markers_of(p_num: int, p_den: int, vals: Seq<int>) -> Markers
    recommends
        vals.len() >= 5,
    decreases vals.len(),
{
    if vals.len() <= 5 {
        let s = sorted_view(vals);
        Markers {
            h1: s[0],
            h2: s[1],
            h3: s[2],
            h4: s[3],
            h5: s[4],
            n1: 1,
            n2: 2,
            n3: 3,
            n4: 4,
            n5: 5,
        }
    } else {
        p2_step(p2_markers_of(p_num, p_den, vals.drop_last()), vals.last(), p_num, p_den)
    }
}

/// One P² estimator for the target quantile `p_num / p_den`.
pub struct Quantile {
    pub p_num: u64,
    pub p_den: u64,
    pub count: u64,
    /// Sorted bootstrap buffer; meaningful while `count <= 5`.
    pub buf: Vec<i64>,
    /// Marker heights, non-decreasing; meaningful once `count >= 5`.
    pub h1: i64,
    pub h2: i64,
    pub h3: i64,
    pub h4: i64,
    pub h5: i64,
    /// Marker ranks, strictly increasing from 1 to `count`.
    pub n1: u64,
    pub n2: u64,
    pub n3: u64,
    pub n4: u64,
    pub n5: u64,
    /// The observations folded in so far, in order.
    pub obs: Ghost<Seq<int>>,
}

impl Quantile {
    /// The marker fields, as one mathematical value.
    pub open spec fn markers(self) -> Markers {
        Markers {
            h1: self.h1 as int,
            h2: self.h2 as int,
            h3: self.h3 as int,
            h4: self.h4 as int,
            h5: self.h5 as int,
            n1: self.n1 as int,
            n2: self.n2 as int,
            n3: self.n3 as int,
            n4: self.n4 as int,
            n5: self.n5 as int,
        }
    }

    /// Marker invariant in the steady state: ranks strictly increasing and
    /// spanning 1 to `count`, heights non-decreasing, and the outer heights
    /// exactly the running minimum and maximum.
    pub open spec fn markers_wf(self) -> bool {
        &&& self.n1 == 1
        &&& self.n1 < self.n2 < self.n3 < self.n4 < self.n5
        &&& self.n5 == self.count
        &&& self.h1 <= self.h2 <= self.h3 <= self.h4 <= self.h5
        &&& self.h1 == seq_min(self.obs@)
        &&& self.h5 == seq_max(self.obs@)
    }

    /// Internal consistency of the estimator. Once five observations are
    /// in, the marker state is pinned: it equals the P² fold of the whole
    /// stream, `p2_markers_of`.
    pub open spec fn wf(self) -> bool {
        &&& 0 < self.p_num < self.p_den <= 1000
        &&& self.count == self.obs@.len()
        &&& self.count <= MAX_COUNT
        &&& all_within(self.obs@, MAX_ABS as int)
        &&& self.count <= 5 ==> {
            &&& self.buf@.len() == self.count
            &&& ascending(buf_model(self.buf@))
            &&& buf_model(self.buf@).to_multiset() == self.obs@.to_multiset()
        }
        &&& self.count >= 5 ==> self.markers_wf()
        &&& self.count >= 5 ==> self.markers() == p2_markers_of(
            self.p_num as int,
            self.p_den as int,
            self.obs@,
        )
    }

    /// A fresh estimator for the quantile `p_num / p_den`, with nothing seen.
    pub fn new(p_num: u64, p_den: u64) -> (r: Quantile)
        requires
            0 < p_num < p_den <= 1000,
        ensures
            r.wf(),
            r.obs@ == Seq::<int>::empty(),
            r.p_num == p_num,
            r.p_den == p_den,
    {
        let r = Quantile {
            p_num,
            p_den,
            count: 0,
            buf: Vec::new(),
            h1: 0,
            h2: 0,
            h3: 0,
            h4: 0,
            h5: 0,
            n1: 0,
            n2: 0,
            n3: 0,
            n4: 0,
            n5: 0,
            obs: Ghost(Seq::empty()),
        };
        proof {
            assert(buf_model(r.buf@) =~= Seq::<int>::empty());
            assert(buf_model(r.buf@).to_multiset() =~= r.obs@.to_multiset());
        }
        r
    }

    /// Fold one observation in. In the steady state the whole marker
    /// transition is pinned: the new markers are exactly one `p2_step` on
    /// the old ones.
    pub fn update(&mut self, x: i64)
        requires
            old(self).wf(),
            old(self).count < MAX_COUNT,
            -MAX_ABS <= x <= MAX_ABS,
        ensures
            final(self).wf(),
            final(self).obs@ == old(self).obs@.push(x as int),
            final(self).count == old(self).count + 1,
            final(self).p_num == old(self).p_num,
            final(self).p_den == old(self).p_den,
            old(self).count >= 5 ==> final(self).markers() == p2_step(
                old(self).markers(),
                x as int,
                old(self).p_num as int,
                old(self).p_den as int,
            ),
    {
        if self.count < 5 {
            self.bootstrap_insert(x);
        } else {
            self.steady_update(x);
        }
    }

    /// Bootstrap phase: keep the buffer sorted; on the fifth observation,
    /// assign the sorted values as marker heights with ranks 1 to 5.
    fn bootstrap_insert(&mut self, x: i64)
        requires
            old(self).wf(),
            old(self).count < 5,
            -MAX_ABS <= x <= MAX_ABS,
        ensures
            final(self).wf(),
            final(self).obs@ == old(self).obs@.push(x as int),
            final(self).count == old(self).count + 1,
            final(self).p_num == old(self).p_num,
            final(self).p_den == old(self).p_den,
    {
        let ghost oldbm = buf_model(self.buf@);
        let mut j: usize = 0;
        while j < self.buf.len() && self.buf[j] <= x
            invariant
                j <= self.buf@.len(),
                forall|i: int| 0 <= i < j ==> buf_model(self.buf@)[i] <= x as int,
            decreases self.buf@.len() - j,
        {
            j = j + 1;
        }
        proof {
            broadcast use vstd::seq_lib::group_to_multiset_ensures;

            // Everything from position j on is above x.
            assert(forall|i: int|
                j <= i < oldbm.len() ==> (x as int) < #[trigger] oldbm[i]) by {
                if j < oldbm.len() {
                    assert(oldbm[j as int] > x as int);
                }
            }
            self.buf@.insert_ensures(j as int, x);
        }
        self.buf.insert(j, x);
        self.count = self.count + 1;
        proof {
            broadcast use vstd::seq_lib::group_to_multiset_ensures;

            let newbm = buf_model(self.buf@);
            assert(newbm =~= oldbm.insert(j as int, x as int)) by {
                oldbm.insert_ensures(j as int, x as int);
                assert(forall|i: int|
                    0 <= i < newbm.len() ==> newbm[i] == #[trigger] self.buf@[i] as int);
            }
            assert(ascending(newbm)) by {
                oldbm.insert_ensures(j as int, x as int);
            }
            assert(newbm.to_multiset() == oldbm.to_multiset().insert(x as int));
            self.obs@ = self.obs@.push(x as int);
            assert(newbm.to_multiset() == self.obs@.to_multiset());
            assert(all_within(self.obs@, MAX_ABS as int)) by {
                assert(forall|i: int|
                    0 <= i < old(self).obs@.len() ==> #[trigger] self.obs@[i] == old(
                        self,
                    ).obs@[i]);
            }
        }
        if self.count == 5 {
            self.h1 = self.buf[0];
            self.h2 = self.buf[1];
            self.h3 = self.buf[2];
            self.h4 = self.buf[3];
            self.h5 = self.buf[4];
            self.n1 = 1;
            self.n2 = 2;
            self.n3 = 3;
            self.n4 = 4;
            self.n5 = 5;
            proof {
                let bm = buf_model(self.buf@);
                lemma_sorted_extrema(bm, self.obs@);
                assert(bm[0] <= bm[1] && bm[1] <= bm[2] && bm[2] <= bm[3] && bm[3] <= bm[4]);
                lemma_buf_sorted_view(bm, self.obs@);
                assert(self.markers() == p2_markers_of(
                    self.p_num as int,
                    self.p_den as int,
                    self.obs@,
                ));
            }
        }
    }

    /// Steady state: one full P² step.
    fn steady_update(&mut self, x: i64)
        requires
            old(self).wf(),
            5 <= old(self).count < MAX_COUNT,
            -MAX_ABS <= x <= MAX_ABS,
        ensures
            final(self).wf(),
            final(self).obs@ == old(self).obs@.push(x as int),
            final(self).count == old(self).count + 1,
            final(self).p_num == old(self).p_num,
            final(self).p_den == old(self).p_den,
            final(self).markers() == p2_step(
                old(self).markers(),
                x as int,
                old(self).p_num as int,
                old(self).p_den as int,
            ),
    {
        let ghost oldobs = self.obs@;
        let ghost pre = self.markers();
        // Locate the bracket; an observation beyond either extreme replaces
        // that extreme's height (ties are absorbed by the extremes).
        let k: usize;
        if x < self.h1 {
            self.h1 = x;
            k = 1;
        } else if x < self.h2 {
            k = 1;
        } else if x < self.h3 {
            k = 2;
        } else if x < self.h4 {
            k = 3;
        } else if x < self.h5 {
            k = 4;
        } else {
            if x > self.h5 {
                self.h5 = x;
            }
            k = 4;
        }
        // Shift the ranks of every marker above the bracket, and count.
        if k < 2 {
            self.n2 = self.n2 + 1;
        }
        if k < 3 {
            self.n3 = self.n3 + 1;
        }
        if k < 4 {
            self.n4 = self.n4 + 1;
        }
        self.n5 = self.n5 + 1;
        self.count = self.count + 1;
        proof {
            self.obs@ = self.obs@.push(x as int);
            lemma_extrema_push(oldobs, x as int);
            assert(all_within(self.obs@, MAX_ABS as int)) by {
                assert(forall|i: int|
                    0 <= i < oldobs.len() ==> #[trigger] self.obs@[i] == oldobs[i]);
            }
        }
        // Ideal ranks, scaled by 2 * p_den so they stay integers:
        // marker 2 wants 1 + (n-1)p/2, marker 3 wants 1 + (n-1)p,
        // marker 4 wants 1 + (n-1)(1+p)/2.
        let scale: u64 = 2 * self.p_den;
        let m: u64 = self.count - 1;
        proof {
            assert(m * self.p_num <= 20000000000000 && 2 * (m * self.p_num) <= 40000000000000
                && m * (self.p_den + self.p_num) <= 40000000000000) by (nonlinear_arith)
                requires
                    m <= 10000000000,
                    0 < self.p_num < self.p_den <= 1000,
            ;
        }
        let des2: u64 = scale + m * self.p_num;
        let des3: u64 = scale + 2 * (m * self.p_num);
        let des4: u64 = scale + m * (self.p_den + self.p_num);
        proof {
            lemma_min_is_least(self.obs@);
            lemma_max_is_greatest(self.obs@);
            assert(-MAX_ABS <= seq_min(self.obs@) && seq_max(self.obs@) <= MAX_ABS) by {
                let i = choose|i: int|
                    0 <= i < self.obs@.len() && self.obs@[i] == seq_min(self.obs@);
                let j = choose|j: int|
                    0 <= j < self.obs@.len() && self.obs@[j] == seq_max(self.obs@);
                assert(-MAX_ABS <= self.obs@[i] <= MAX_ABS);
                assert(-MAX_ABS <= self.obs@[j] <= MAX_ABS);
            }
        }
        // Nudge each interior marker that has drifted a full rank.
        let (nh2, nn2) = p2_adjust(self.h1, self.h2, self.h3, self.n1, self.n2, self.n3, des2, scale);
        self.h2 = nh2;
        self.n2 = nn2;
        let (nh3, nn3) = p2_adjust(self.h2, self.h3, self.h4, self.n2, self.n3, self.n4, des3, scale);
        self.h3 = nh3;
        self.n3 = nn3;
        let (nh4, nn4) = p2_adjust(self.h3, self.h4, self.h5, self.n3, self.n4, self.n5, des4, scale);
        self.h4 = nh4;
        self.n4 = nn4;
        proof {
            let st = p2_step(pre, x as int, self.p_num as int, self.p_den as int);
            assert(p2_bracket(pre, x as int) == k as int);
            assert(self.markers() == st);
            assert(self.obs@.drop_last() =~= oldobs);
            assert(self.obs@.last() == x as int);
            assert(self.markers() == p2_markers_of(self.p_num as int, self.p_den as int, self.obs@));
        }
    }

    /// The current estimate of the value at the target quantile: nothing
    /// until five observations are in; with exactly five, the exact order
    /// statistic of rank `floor(5 * p)` (zero-based) of the sorted
    /// observations; afterwards the middle marker's height, which always
    /// lies between the exact minimum and maximum of the stream.
    pub fn get(&self) -> (r: Option<i64>)
        requires
            self.wf(),
        ensures
            r is Some <==> self.obs@.len() >= 5,
            self.obs@.len() == 5 ==> r == Some::<i64>(
                sorted_view(self.obs@)[5 * self.p_num as int / self.p_den as int] as i64,
            ),
            self.obs@.len() > 5 ==> {
                &&& r == Some::<i64>(self.h3)
                &&& r->Some_0 as int == p2_markers_of(
                    self.p_num as int,
                    self.p_den as int,
                    self.obs@,
                ).h3
                &&& seq_min(self.obs@) <= self.h3 as int <= seq_max(self.obs@)
            },
    {
        if self.count < 5 {
            None
        } else if self.count == 5 {
            let idx: u64 = 5 * self.p_num / self.p_den;
            proof {
                assert(idx < 5) by {
                    vstd::arithmetic::div_mod::lemma_fundamental_div_mod(
                        5 * self.p_num as int,
                        self.p_den as int,
                    );
                    assert(self.p_den as int * 5 <= 5 * self.p_den) by (nonlinear_arith);
                    if 5 * self.p_num as int / self.p_den as int >= 5 {
                        assert(self.p_den as int * (5 * self.p_num as int / self.p_den as int)
                            >= self.p_den as int * 5) by (nonlinear_arith)
                            requires
                                self.p_den > 0,
                                5 * self.p_num as int / self.p_den as int >= 5,
                        ;
                    }
                }
                lemma_buf_sorted_view(buf_model(self.buf@), self.obs@);
            }
            Some(self.buf[idx as usize])
        } else {
            Some(self.h3)
        }
    }
}

/// A sorted buffer holding the same multiset as a stream is that stream's
/// sorted arrangement.
proof fn lemma_buf_sorted_view(bm: Seq<int>, obs: Seq<int>)
    requires
        ascending(bm),
        bm.to_multiset() == obs.to_multiset(),
    ensures
        bm =~= sorted_view(obs),
{
    let le = |a: int, b: int| a <= b;
    assert(total_ordering(le));
    obs.lemma_sort_by_ensures(le);
    assert(sorted_by(bm, le));
    lemma_sorted_unique(bm, obs.sort_by(le), le);
}

/// Sorted order puts the least value first and the greatest last.
proof fn lemma_sorted_extrema(bm: Seq<int>, obs: Seq<int>)
    requires
        ascending(bm),
        bm.to_multiset() == obs.to_multiset(),
        obs.len() > 0,
    ensures
        bm.len() == obs.len(),
        bm[0] == seq_min(obs),
        bm[bm.len() - 1] == seq_max(obs),
{
    broadcast use vstd::seq_lib::group_to_multiset_ensures;

    assert(bm.to_multiset().len() == bm.len());
    assert(obs.to_multiset().len() == obs.len());
    lemma_min_is_least(obs);
    lemma_max_is_greatest(obs);
    assert(obs.to_multiset().count(seq_min(obs)) > 0);
    assert(obs.to_multiset().count(seq_max(obs)) > 0);
    assert(bm.contains(seq_min(obs)));
    assert(bm.contains(seq_max(obs)));
    assert(bm.to_multiset().count(bm[0]) > 0);
    assert(bm.to_multiset().count(bm[bm.len() - 1]) > 0);
    assert(obs.contains(bm[0]));
    assert(obs.contains(bm[bm.len() - 1]));
}

/// One interior marker's adjustment step: if its rank has drifted at least
/// one place from the ideal rank (`des_scaled / scale`), move the rank one
/// place toward it and re-estimate the height — parabolically when the
/// result stays strictly between the neighbour heights, linearly toward the
/// neighbour otherwise. The height always stays within the neighbour
/// heights and the rank strictly between the neighbour ranks.
fn p2_adjust(hm: i64, h: i64, hp: i64, nm: u64, n: u64, np: u64, des_scaled: u64, scale: u64) -> (r:
    (i64, u64))
    requires
        hm <= h <= hp,
        -MAX_ABS <= hm,
        hp <= MAX_ABS,
        nm < n < np <= MAX_COUNT,
        2 <= scale <= 2000,
    ensures
        hm <= r.0 <= hp,
        nm < r.1 < np,
        (r.0 as int, r.1 as int) == p2_adjust_spec(
            hm as int,
            h as int,
            hp as int,
            nm as int,
            n as int,
            np as int,
            des_scaled as int,
            scale as int,
        ),
{
    proof {
        assert((n as i128) * (scale as i128) <= 20000000000000 && 0 <= (n as i128) * (
        scale as i128)) by (nonlinear_arith)
            requires
                0 <= n <= 10000000000,
                2 <= scale <= 2000,
        ;
    }
    let d_scaled: i128 = des_scaled as i128 - (n as i128) * (scale as i128);
    if d_scaled >= scale as i128 && np - n > 1 {
        let nh = p2_new_height(hm, h, hp, nm, n, np, true);
        (nh, n + 1)
    } else if d_scaled <= -(scale as i128) && n - nm > 1 {
        let nh = p2_new_height(hm, h, hp, nm, n, np, false);
        (nh, n - 1)
    } else {
        (h, n)
    }
}

/// The height for a marker whose rank moves one place up (`up`) or down:
/// the piecewise-parabolic prediction if it keeps the heights monotone,
/// otherwise linear interpolation toward the neighbour the rank moved to.
fn p2_new_height(hm: i64, h: i64, hp: i64, nm: u64, n: u64, np: u64, up: bool) -> (r: i64)
    requires
        hm <= h <= hp,
        -MAX_ABS <= hm,
        hp <= MAX_ABS,
        nm < n < np <= MAX_COUNT,
        up ==> np - n > 1,
        !up ==> n - nm > 1,
    ensures
        hm <= r <= hp,
        r as int == p2_height_spec(
            hm as int,
            h as int,
            hp as int,
            nm as int,
            n as int,
            np as int,
            up,
        ),
{
    let a: i128 = (n - nm) as i128;
    let b: i128 = (np - n) as i128;
    let dqp: i128 = hp as i128 - h as i128;
    let dqm: i128 = h as i128 - hm as i128;
    proof {
        assert(1 <= a <= 10000000000 && 1 <= b <= 10000000000 && 0 <= dqp <= 2000000000 && 0
            <= dqm <= 2000000000);
    }
    // Parabolic prediction over the common denominator a * b * (a + b):
    // with d = +1 the numerator is (a+1) * dqp * a + (b-1) * dqm * b, with
    // d = -1 it is (a-1) * dqp * a + (b+1) * dqm * b; both are non-negative.
    let n0: i128 = if up {
        proof {
            assert(0 <= (a + 1) * dqp <= 30000000000000000000 && 0 <= (a + 1) * dqp * a
                <= 300000000000000000000000000000 && 0 <= (b - 1) * dqm <= 30000000000000000000
                && 0 <= (b - 1) * dqm * b <= 300000000000000000000000000000) by (nonlinear_arith)
                requires
                    1 <= a <= 10000000000,
                    2 <= b <= 10000000000,
                    0 <= dqp <= 2000000000,
                    0 <= dqm <= 2000000000,
            ;
        }
        (a + 1) * dqp * a + (b - 1) * dqm * b
    } else {
        proof {
            assert(0 <= (a - 1) * dqp <= 30000000000000000000 && 0 <= (a - 1) * dqp * a
                <= 300000000000000000000000000000 && 0 <= (b + 1) * dqm <= 30000000000000000000
                && 0 <= (b + 1) * dqm * b <= 300000000000000000000000000000) by (nonlinear_arith)
                requires
                    2 <= a <= 10000000000,
                    1 <= b <= 10000000000,
                    0 <= dqp <= 2000000000,
                    0 <= dqm <= 2000000000,
            ;
        }
        (a - 1) * dqp * a + (b + 1) * dqm * b
    };
    proof {
        assert(0 < a * b <= 100000000000000000000 && 0 < a * b * (a + b)
            <= 2000000000000000000000000000000) by (nonlinear_arith)
            requires
                1 <= a <= 10000000000,
                1 <= b <= 10000000000,
        ;
    }
    let den: i128 = a * b * (a + b);
    proof {
        lemma_div_nonincreasing(n0 as int, den as int);
    }
    let step: u128 = (n0 as u128) / (den as u128);
    let cand: i128 = if up {
        h as i128 + step as i128
    } else {
        h as i128 - step as i128
    };
    if (hm as i128) < cand && cand < (hp as i128) {
        cand as i64
    } else if up {
        // Linear toward the upper neighbour; the step is at most the gap.
        let gap: u64 = np - n;
        let diff: u64 = (hp - h) as u64;
        proof {
            lemma_div_nonincreasing(diff as int, gap as int);
        }
        h + (diff / gap) as i64
    } else {
        // Linear toward the lower neighbour.
        let gap: u64 = n - nm;
        let diff: u64 = (h - hm) as u64;
        proof {
            lemma_div_nonincreasing(diff as int, gap as int);
        }
        h - (diff / gap) as i64
    }
}

} // verus!
