//! The statistics aggregate: one mean/variance estimator, three quantile
//! estimators (first quartile, median, third quartile), the extrema
//! tracker, a count, and the two-state lifecycle flag that keeps reports
//! honest before any data has arrived.

use vstd::prelude::*;

use crate::extrema::Extrema;
use crate::meanvar::{MeanVariance, Ratio};
use crate::model::{all_within, seq_max, seq_min, seq_sum, seq_sum_sq};
use crate::parse::{parse_spec, parse_value};
use crate::quantile::{p2_markers_of, sorted_view, Quantile};
use crate::{MAX_ABS, MAX_COUNT};

verus! {

/// Why a run was aborted.
#[derive(Debug)]
pub enum FloatError {
    /// The line at the given 0-based index (headers excluded) is not a
    /// number of the accepted form; the raw text is carried along.
    ParsingError { lineno: usize, number: Vec<u8> },
}

/// One report of every statistic; estimators that have not seen enough
/// data report `None` rather than a sentinel.
pub struct Snapshot {
    pub count: u64,
    pub min: Option<i64>,
    pub max: Option<i64>,
    pub mean: Option<Ratio>,
    pub variance: Option<Ratio>,
    pub median: Option<i64>,
    pub q1: Option<i64>,
    pub q3: Option<i64>,
}

/// The streaming statistics aggregate.
pub struct Stats {
    pub mean: MeanVariance,
    pub median: Quantile,
    pub q1: Quantile,
    pub q3: Quantile,
    pub extrema: Extrema,
    pub count: u64,
    pub initialized: bool,
    /// The observations folded in so far, in order.
    pub obs: Ghost<Seq<int>>,
}

impl Stats {
    /// Internal consistency: every sub-estimator has folded in exactly the
    /// same stream, the targets of the three quantile estimators are the
    /// quartiles, and `initialized` holds exactly once data has arrived.
    pub open spec fn wf(self) -> bool {
        &&& self.mean.wf()
        &&& self.median.wf()
        &&& self.q1.wf()
        &&& self.q3.wf()
        &&& self.extrema.wf()
        &&& self.mean.obs@ == self.obs@
        &&& self.median.obs@ == self.obs@
        &&& self.q1.obs@ == self.obs@
        &&& self.q3.obs@ == self.obs@
        &&& self.extrema.obs@ == self.obs@
        &&& self.median.p_num == 1 && self.median.p_den == 2
        &&& self.q1.p_num == 1 && self.q1.p_den == 4
        &&& self.q3.p_num == 3 && self.q3.p_den == 4
        &&& self.count == self.obs@.len()
        &&& self.count <= MAX_COUNT
        &&& all_within(self.obs@, MAX_ABS as int)
        &&& self.initialized <==> self.obs@.len() > 0
    }

    /// A fresh aggregate: nothing seen, not initialized.
    pub fn default() -> (r: Stats)
        ensures
            r.wf(),
            r.obs@ == Seq::<int>::empty(),
            r.count == 0,
            !r.initialized,
    {
        Stats {
            mean: MeanVariance::new(),
            median: Quantile::new(1, 2),
            q1: Quantile::new(1, 4),
            q3: Quantile::new(3, 4),
            extrema: Extrema::new(),
            count: 0,
            initialized: false,
            obs: Ghost(Seq::empty()),
        }
    }

    /// Fold one observation into every sub-estimator; the first call moves
    /// the aggregate to its initialized state, where it stays.
    pub fn update(&mut self, val: i64)
        requires
            old(self).wf(),
            old(self).count < MAX_COUNT,
            -MAX_ABS <= val <= MAX_ABS,
        ensures
            final(self).wf(),
            final(self).obs@ == old(self).obs@.push(val as int),
            final(self).count == old(self).count + 1,
            final(self).initialized,
    {
        self.mean.update(val);
        self.median.update(val);
        self.q1.update(val);
        self.q3.update(val);
        self.extrema.update(val);
        self.count = self.count + 1;
        self.initialized = true;
        proof {
            self.obs@ = self.obs@.push(val as int);
            assert(all_within(self.obs@, MAX_ABS as int)) by {
                assert(forall|i: int|
                    0 <= i < old(self).obs@.len() ==> #[trigger] self.obs@[i] == old(
                        self,
                    ).obs@[i]);
            }
        }
    }

    /// The number of observations folded in so far.
    pub fn count(&self) -> (r: u64)
        requires
            self.wf(),
        ensures
            r == self.obs@.len(),
    {
        self.count
    }

    /// The exact minimum of the stream, absent before any update.
    pub fn min(&self) -> (r: Option<i64>)
        requires
            self.wf(),
        ensures
            r is Some <==> self.obs@.len() > 0,
            r is Some ==> r->Some_0 == seq_min(self.obs@),
    {
        if self.initialized {
            Some(self.extrema.min)
        } else {
            None
        }
    }

    /// The exact maximum of the stream, absent before any update.
    pub fn max(&self) -> (r: Option<i64>)
        requires
            self.wf(),
        ensures
            r is Some <==> self.obs@.len() > 0,
            r is Some ==> r->Some_0 == seq_max(self.obs@),
    {
        if self.initialized {
            Some(self.extrema.max)
        } else {
            None
        }
    }

    /// One report of every statistic. Before any update every field but
    /// the count is absent — the extrema sentinels never leak. Count, min
    /// and max are exact; mean and variance are exact rationals; the
    /// quantile estimates appear once five observations are in, exact at
    /// that point and thereafter P² estimates that stay within the exact
    /// minimum and maximum.
    pub fn snapshot(&self) -> (r: Snapshot)
        requires
            self.wf(),
        ensures
            r.count == self.obs@.len(),
            r.min is Some <==> self.obs@.len() > 0,
            r.min is Some ==> r.min->Some_0 == seq_min(self.obs@),
            r.max is Some <==> self.obs@.len() > 0,
            r.max is Some ==> r.max->Some_0 == seq_max(self.obs@),
            r.mean is Some <==> self.obs@.len() > 0,
            r.mean is Some ==> r.mean->Some_0 == (Ratio {
                num: seq_sum(self.obs@) as i128,
                den: self.obs@.len() as i128,
            }),
            r.variance is Some <==> self.obs@.len() > 0,
            r.variance is Some ==> r.variance->Some_0 == (Ratio {
                num: (self.obs@.len() * seq_sum_sq(self.obs@) - seq_sum(self.obs@) * seq_sum(
                    self.obs@,
                )) as i128,
                den: (self.obs@.len() * self.obs@.len()) as i128,
            }),
            r.variance is Some ==> r.variance->Some_0.num >= 0 && r.variance->Some_0.den > 0,
            r.median is Some <==> self.obs@.len() >= 5,
            r.q1 is Some <==> self.obs@.len() >= 5,
            r.q3 is Some <==> self.obs@.len() >= 5,
            self.obs@.len() == 5 ==> {
                &&& r.q1 == Some::<i64>(sorted_view(self.obs@)[1] as i64)
                &&& r.median == Some::<i64>(sorted_view(self.obs@)[2] as i64)
                &&& r.q3 == Some::<i64>(sorted_view(self.obs@)[3] as i64)
            },
            self.obs@.len() > 5 ==> {
                &&& r.q1 == Some::<i64>(p2_markers_of(1, 4, self.obs@).h3 as i64)
                &&& r.median == Some::<i64>(p2_markers_of(1, 2, self.obs@).h3 as i64)
                &&& r.q3 == Some::<i64>(p2_markers_of(3, 4, self.obs@).h3 as i64)
                &&& seq_min(self.obs@) <= r.median->Some_0 as int <= seq_max(self.obs@)
                &&& seq_min(self.obs@) <= r.q1->Some_0 as int <= seq_max(self.obs@)
                &&& seq_min(self.obs@) <= r.q3->Some_0 as int <= seq_max(self.obs@)
            },
    {
        Snapshot {
            count: self.count,
            min: self.min(),
            max: self.max(),
            mean: self.mean.mean(),
            variance: self.mean.variance(),
            median: self.median.get(),
            q1: self.q1.get(),
            q3: self.q3.get(),
        }
    }

    /// Feed one raw input line: parse it and fold the value in, or report
    /// the parse failure with the given 0-based line index and the raw
    /// text, leaving the aggregate untouched.
    pub fn ingest_line(&mut self, lineno: usize, line: &Vec<u8>) -> (r: Result<(), FloatError>)
        requires
            old(self).wf(),
            old(self).count < MAX_COUNT,
        ensures
            final(self).wf(),
            parse_spec(line@) is Some ==> {
                &&& r is Ok
                &&& final(self).obs@ == old(self).obs@.push(parse_spec(line@)->Some_0)
                &&& final(self).count == old(self).count + 1
            },
            parse_spec(line@) is None ==> {
                &&& *final(self) == *old(self)
                &&& r matches Err(FloatError::ParsingError { lineno: l, number: n }) && l
                    == lineno && n@ == line@
            },
    {
        match parse_value(line.as_slice()) {
            Some(v) => {
                self.update(v);
                Ok(())
            },
            None => {
                let number = copy_bytes(line);
                Err(FloatError::ParsingError { lineno, number })
            },
        }
    }
}

/// A plain copy of a line's bytes.
fn copy_bytes(line: &Vec<u8>) -> (r: Vec<u8>)
    ensures
        r@ == line@,
{
    let mut r: Vec<u8> = Vec::new();
    let mut i: usize = 0;
    while i < line.len()
        invariant
            i <= line@.len(),
            r@ == line@.take(i as int),
        decreases line@.len() - i,
    {
        r.push(line[i]);
        proof {
            assert(line@.take(i + 1) =~= line@.take(i as int).push(line@[i as int]));
        }
        i = i + 1;
    }
    proof {
        assert(line@.take(line@.len() as int) =~= line@);
    }
    r
}

/// The lines a run folds in: all of them, or all but a header line.
pub open spec fn body_of(lines: Seq<Seq<u8>>, skip_header: bool) -> Seq<Seq<u8>> {
    if skip_header && lines.len() > 0 {
        lines.skip(1)
    } else {
        lines
    }
}

/// Every line of the body denotes a value.
pub open spec fn all_lines_parse(lines: Seq<Seq<u8>>) -> bool {
    forall|i: int| 0 <= i < lines.len() ==> (#[trigger] parse_spec(lines[i])) is Some
}

/// The values the body denotes, line by line.
pub open spec fn line_values(lines: Seq<Seq<u8>>) -> Seq<int> {
    Seq::new(lines.len(), |i: int| parse_spec(lines[i])->Some_0)
}

/// The index of the first line that does not parse.
pub open spec fn first_bad(lines: Seq<Seq<u8>>) -> int
    decreases lines.len(),
{
    if lines.len() == 0 {
        0
    } else if parse_spec(lines[0]) is None {
        0
    } else {
        1 + first_bad(lines.drop_first())
    }
}

proof fn lemma_first_bad_at(lines: Seq<Seq<u8>>, k: int)
    requires
        0 <= k < lines.len(),
        parse_spec(lines[k]) is None,
        forall|j: int| 0 <= j < k ==> (#[trigger] parse_spec(lines[j])) is Some,
    ensures
        first_bad(lines) == k,
    decreases k,
{
    if k > 0 {
        assert(parse_spec(lines[0]) is Some);
        assert(lines.drop_first()[k - 1] == lines[k]);
        assert(forall|j: int|
            0 <= j < k - 1 ==> #[trigger] lines.drop_first()[j] == lines[j + 1]);
        lemma_first_bad_at(lines.drop_first(), k - 1);
    }
}

/// Run the whole pipeline over a list of raw lines: skip the header when
/// asked, parse every line in order, and fold the values into a fresh
/// aggregate. Succeeds with the aggregate of all values exactly when every
/// line parses; otherwise reports the first offending line — its 0-based
/// index counted after the header — and folds nothing further.
pub fn compute_stats(lines: &Vec<Vec<u8>>, skip_header: bool) -> (r: Result<Stats, FloatError>)
    requires
        lines@.len() <= MAX_COUNT,
    ensures
        ({
            let body = body_of(lines@.map_values(|l: Vec<u8>| l@), skip_header);
            &&& (r is Ok <==> all_lines_parse(body))
            &&& r is Ok ==> {
                &&& r->Ok_0.wf()
                &&& r->Ok_0.obs@ == line_values(body)
            }
            &&& r is Err ==> (r->Err_0 matches FloatError::ParsingError { lineno: l, number: n }
                && l == first_bad(body) && n@ == body[first_bad(body)])
        }),
{
    let ghost body = body_of(lines@.map_values(|l: Vec<u8>| l@), skip_header);
    let mut stats = Stats::default();
    let start: usize = if skip_header && lines.len() > 0 {
        1
    } else {
        0
    };
    proof {
        assert(forall|i: int|
            0 <= i < body.len() ==> #[trigger] body[i] == lines@[i + start]@);
    }
    proof {
        assert(line_values(body.take(0)) =~= Seq::<int>::empty());
    }
    let mut i = start;
    while i < lines.len()
        invariant
            start <= i <= lines@.len(),
            start == 0 || start == 1,
            lines@.len() <= MAX_COUNT,
            body == body_of(lines@.map_values(|l: Vec<u8>| l@), skip_header),
            body.len() == lines@.len() - start,
            forall|k: int| 0 <= k < body.len() ==> #[trigger] body[k] == lines@[k + start]@,
            stats.wf(),
            stats.obs@ == line_values(body.take(i - start)),
            forall|j: int| 0 <= j < i - start ==> (#[trigger] parse_spec(body[j])) is Some,
        decreases lines@.len() - i,
    {
        let res = stats.ingest_line(i - start, &lines[i]);
        match res {
            Ok(()) => {
                proof {
                    assert(line_values(body.take(i - start + 1)) =~= line_values(
                        body.take(i - start),
                    ).push(parse_spec(body[i - start]) -> Some_0));
                }
            },
            Err(e) => {
                proof {
                    lemma_first_bad_at(body, i - start);
                }
                return Err(e);
            },
        }
        i = i + 1;
    }
    proof {
        assert(body.take(body.len() as int) =~= body);
    }
    Ok(stats)
}

} // verus!
