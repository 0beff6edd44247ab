use vstd::prelude::*;
use crate::point::{Point, is_distance};
use crate::scalar::{Scalar, is_zero_value, is_one_value, is_sum, is_product, compares_above, finiteness};
use crate::solver::{Solver, SolveError};

verus! {

/// What one trial measured and estimated.
#[derive(Debug)]
pub struct TestResult<T> {
    /// Where the tag truly was.
    pub tag_pt: Point<T>,
    pub anchor_pts: Vec<Point<T>>,
    /// The distance from each anchor to the tag.
    pub real_distances: Vec<T>,
    /// The relative noise applied to each distance.
    pub distance_coefficients: Vec<T>,
    /// Each distance with its noise applied.
    pub adjusted_distances: Vec<T>,
    /// Where the solver placed the tag.
    pub predicted_pt: Point<T>,
    /// The distance from the true tag to the estimate.
    pub delta: T,
}

/// Why a run cannot be configured as asked.
#[derive(Debug, Clone, Copy, PartialEq, Eq, Structural)]
pub enum ConfigError {
    /// Fewer than three anchors.
    TooFewAnchors,
    /// No trials.
    NoTrials,
    /// A relative noise margin outside the open interval from zero to one.
    ErrorMarginOutOfRange,
}

/// `r` is `d` with relative noise `c` applied: `d + d·c`.
pub open spec fn is_adjusted<T: Scalar>(d: T, c: T, r: T) -> bool {
    exists|p: T| is_product(d, c, p) && #[trigger] is_sum(d, p, r)
}

/// `r` is the distance from `anchor` to `tag` with relative noise `c`
/// applied.
pub open spec fn is_noisy_range<T: Scalar>(anchor: Point<T>, tag: Point<T>, c: T, r: T) -> bool {
    exists|d: T| is_distance(anchor, tag, d) && #[trigger] is_adjusted(d, c, r)
}

/// Each of `ranges` is the distance from the anchor at its place to `tag`
/// with the relative noise at its place applied.
pub open spec fn noisy_ranges<T: Scalar>(tag: Point<T>, anchors: Seq<Point<T>>, coefficients: Seq<T>, ranges: Seq<T>) -> bool {
    &&& ranges.len() == anchors.len()
    &&& forall|i: int| 0 <= i < anchors.len() ==> is_noisy_range(anchors[i], tag, coefficients[i], #[trigger] ranges[i])
}

/// `ok` says whether `margin` lies strictly between zero and one.
pub open spec fn is_open_unit<T: Scalar>(margin: T, ok: bool) -> bool {
    exists|z: T, u: T, above_zero: bool, below_one: bool|
        #![trigger compares_above(margin, z, above_zero), compares_above(u, margin, below_one)]
    {
        &&& is_zero_value(z)
        &&& is_one_value(u)
        &&& compares_above(margin, z, above_zero)
        &&& compares_above(u, margin, below_one)
        &&& ok == (above_zero && below_one)
    }
}

/// `res` records a trial on the given layout and noise: the true distance
/// from each anchor to the tag, each with its noise applied, and the distance
/// from the tag to the recorded estimate as the error.
pub open spec fn is_trial<T: Scalar>(
    tag: Point<T>,
    anchors: Seq<Point<T>>,
    coefficients: Seq<T>,
    res: TestResult<T>,
) -> bool {
    let n = anchors.len();
    &&& res.tag_pt == tag
    &&& res.anchor_pts@ == anchors
    &&& res.distance_coefficients@ == coefficients
    &&& res.real_distances@.len() == n
    &&& res.adjusted_distances@.len() == n
    &&& forall|i: int| 0 <= i < n ==> is_distance(anchors[i], tag, #[trigger] res.real_distances@[i])
    &&& forall|i: int| 0 <= i < n
            ==> is_adjusted(res.real_distances@[i], coefficients[i], #[trigger] res.adjusted_distances@[i])
    &&& is_distance(tag, res.predicted_pt, res.delta)
}

/// `e` is how a trial fails on the solver's outcome `o`: the solver's own
/// error, or `NonFinite` for an estimate with a coordinate that does not
/// test finite.
pub open spec fn is_rejection<T: Scalar>(o: Result<Point<T>, SolveError>, e: SolveError) -> bool {
    match o {
        Ok(p) => e == SolveError::NonFinite && exists|bx: bool, by: bool|
            #![trigger finiteness(p.x, bx), finiteness(p.y, by)]
            finiteness(p.x, bx) && finiteness(p.y, by) && !(bx && by),
        Err(e2) => e == e2,
    }
}

/// Completes a trial with the solver's `outcome` for the given measurements:
/// a solver error is handed back, an estimate that is not finite is a
/// failure, and a finite one is recorded with its error.
pub fn record_trial<T: Scalar>(
    tag: Point<T>,
    anchors: Vec<Point<T>>,
    measured: Vec<T>,
    coefficients: Vec<T>,
    adjusted: Vec<T>,
    outcome: Result<Point<T>, SolveError>,
) -> (r: Result<TestResult<T>, SolveError>)
    ensures
        outcome.is_err() ==> r == Err::<TestResult<T>, SolveError>(outcome->Err_0),
        outcome.is_ok() ==> r.is_ok() || r == Err::<TestResult<T>, SolveError>(SolveError::NonFinite),
        r.is_err() ==> is_rejection(outcome, r->Err_0),
        r.is_ok() ==> {
            let res = r->Ok_0;
            let p = outcome->Ok_0;
            &&& outcome.is_ok()
            &&& res.tag_pt == tag
            &&& res.anchor_pts == anchors
            &&& res.real_distances == measured
            &&& res.distance_coefficients == coefficients
            &&& res.adjusted_distances == adjusted
            &&& res.predicted_pt == p
            &&& finiteness(p.x, true)
            &&& finiteness(p.y, true)
            &&& is_distance(tag, p, res.delta)
        },
{
    let predicted = match outcome {
        Ok(p) => p,
        Err(e) => {
            return Err(e);
        },
    };
    let fx = predicted.x.is_finite();
    let fy = predicted.y.is_finite();
    if !(fx && fy) {
        assert(finiteness(predicted.x, fx) && finiteness(predicted.y, fy));
        return Err(SolveError::NonFinite);
    }
    let delta = tag.distance_to(&predicted);
    Ok(TestResult {
        tag_pt: tag,
        anchor_pts: anchors,
        real_distances: measured,
        distance_coefficients: coefficients,
        adjusted_distances: adjusted,
        predicted_pt: predicted,
        delta,
    })
}

/// One trial: measures the distances from the anchors to the tag, applies
/// the relative noise, asks `solver` for an estimate of the tag from the
/// anchors and the noisy distances, and completes the trial with what it
/// answered as `record_trial` does.
pub fn run_trial<T: Scalar, S: Solver<T>>(
    solver: &S,
    tag: Point<T>,
    anchors: Vec<Point<T>>,
    coefficients: Vec<T>,
) -> (r: Result<TestResult<T>, SolveError>)
    requires
        coefficients@.len() == anchors@.len(),
        2 * anchors@.len() <= usize::MAX,
    ensures
        r.is_ok() ==> is_trial(tag, anchors@, coefficients@, r->Ok_0),
        r.is_ok() ==> r->Ok_0.anchor_pts == anchors,
        r.is_ok() ==> call_ensures(S::solve, (solver, &anchors, &r->Ok_0.adjusted_distances),
            Ok::<Point<T>, SolveError>(r->Ok_0.predicted_pt)),
        r.is_ok() ==> finiteness(r->Ok_0.predicted_pt.x, true) && finiteness(r->Ok_0.predicted_pt.y, true),
        r.is_err() ==> exists|ranges: Vec<T>, o: Result<Point<T>, SolveError>|
            #![trigger noisy_ranges(tag, anchors@, coefficients@, ranges@), is_rejection(o, r->Err_0)]
        {
            &&& noisy_ranges(tag, anchors@, coefficients@, ranges@)
            &&& call_ensures(S::solve, (solver, &anchors, &ranges), o)
            &&& is_rejection(o, r->Err_0)
        },
{
    let n = anchors.len();
    let mut measured: Vec<T> = Vec::new();
    let mut adjusted: Vec<T> = Vec::new();
    let mut i: usize = 0;
    while i < n
        invariant
            n == anchors@.len(),
            n == coefficients@.len(),
            i <= n,
            measured@.len() == i,
            adjusted@.len() == i,
            forall|k: int| 0 <= k < i ==> is_distance(anchors@[k], tag, #[trigger] measured@[k]),
            forall|k: int| 0 <= k < i ==> is_adjusted(measured@[k], coefficients@[k], #[trigger] adjusted@[k]),
        decreases n - i,
    {
        let d = anchors[i].distance_to(&tag);
        let p = d.times(coefficients[i]);
        let a = d.plus(p);
        assert(is_product(d, coefficients@[i as int], p) && is_sum(d, p, a));
        measured.push(d);
        adjusted.push(a);
        i = i + 1;
    }
    let outcome = solver.solve(&anchors, &adjusted);
    assert forall|k: int| 0 <= k < n implies is_noisy_range(anchors@[k], tag, coefficients@[k], #[trigger] adjusted@[k]) by {
        assert(is_distance(anchors@[k], tag, measured@[k]) && is_adjusted(measured@[k], coefficients@[k], adjusted@[k]));
    }
    assert(noisy_ranges(tag, anchors@, coefficients@, adjusted@));
    let ghost ranges = adjusted;
    let ghost given = anchors;
    let r = record_trial(tag, anchors, measured, coefficients, adjusted, outcome);
    proof {
        if r.is_err() {
            assert(noisy_ranges(tag, given@, coefficients@, ranges@) && is_rejection(outcome, r->Err_0));
        }
    }
    r
}

/// A Monte Carlo run of trials of a solver under bounded relative noise.
///
/// The caller draws the random layouts and noise: before the first trial a
/// tag and `num_of_anchors` anchors, for each trial one coefficient per
/// anchor, and after each trial but the last a fresh tag and anchors, as
/// `trial` asks. The last trial is thus measured on the layout it was drawn
/// for. A trial whose solver fails is counted and left out of the results.
pub struct TestRunner<T, S> {
    pub num_of_anchors: i32,
    pub error_margin: T,
    /// The number of trials the run holds.
    pub times: i32,
    /// The number of trials carried out so far.
    pub completed: i32,
    /// The trials whose solver succeeded, in order.
    pub results: Vec<TestResult<T>>,
    /// The number of trials whose solver failed.
    pub failures: i32,
    pub callback: S,
}

impl<T: Scalar, S: Solver<T>> TestRunner<T, S> {
    pub open spec fn wf(&self) -> bool {
        &&& 3 <= self.num_of_anchors
        &&& 1 <= self.times
        &&& 0 <= self.completed <= self.times
        &&& 0 <= self.failures
        &&& self.results@.len() + self.failures == self.completed
    }

    /// A run of `times` trials with `num_of_anchors` anchors and relative
    /// noise drawn from `[-error_margin, error_margin]`.
    pub fn new(num_of_anchors: i32, error_margin: T, times: i32, callback: S) -> (r: Result<Self, ConfigError>)
        ensures
            num_of_anchors < 3 <==> r == Err::<Self, ConfigError>(ConfigError::TooFewAnchors),
            num_of_anchors >= 3 && times < 1 <==> r == Err::<Self, ConfigError>(ConfigError::NoTrials),
            num_of_anchors >= 3 && times >= 1
                ==> r.is_ok() || r == Err::<Self, ConfigError>(ConfigError::ErrorMarginOutOfRange),
            r == Err::<Self, ConfigError>(ConfigError::ErrorMarginOutOfRange) ==> is_open_unit(error_margin, false),
            r.is_ok() ==> is_open_unit(error_margin, true),
            r.is_ok() ==> {
                let run = r->Ok_0;
                &&& run.wf()
                &&& run.num_of_anchors == num_of_anchors
                &&& run.error_margin == error_margin
                &&& run.times == times
                &&& run.completed == 0
                &&& run.callback == callback
            },
    {
        if num_of_anchors < 3 {
            return Err(ConfigError::TooFewAnchors);
        }
        if times < 1 {
            return Err(ConfigError::NoTrials);
        }
        let z = T::zero();
        let u = T::one();
        let above_zero = error_margin.exceeds(z);
        let below_one = u.exceeds(error_margin);
        assert(compares_above(error_margin, z, above_zero) && compares_above(u, error_margin, below_one));
        if !(above_zero && below_one) {
            assert(is_open_unit(error_margin, false));
            return Err(ConfigError::ErrorMarginOutOfRange);
        }
        assert(is_open_unit(error_margin, true));
        Ok(TestRunner {
            num_of_anchors,
            error_margin,
            times,
            completed: 0,
            results: Vec::new(),
            failures: 0,
            callback,
        })
    }

    /// Whether every trial has been carried out.
    pub fn is_finished(&self) -> (r: bool)
        ensures
            r == (self.completed >= self.times),
    {
        self.completed >= self.times
    }

    /// Carries out the next trial on the given layout and noise, and says
    /// whether a fresh layout is to be drawn for the trial after it: yes
    /// unless this was the last.
    pub fn trial(&mut self, tag: Point<T>, anchors: Vec<Point<T>>, coefficients: Vec<T>) -> (resample: bool)
        requires
            old(self).wf(),
            old(self).completed < old(self).times,
            anchors@.len() == old(self).num_of_anchors,
            coefficients@.len() == old(self).num_of_anchors,
        ensures
            final(self).wf(),
            final(self).num_of_anchors == old(self).num_of_anchors,
            final(self).error_margin == old(self).error_margin,
            final(self).times == old(self).times,
            final(self).callback == old(self).callback,
            final(self).completed == old(self).completed + 1,
            resample == (final(self).completed < final(self).times),
            final(self).failures == old(self).failures ==> {
                let res = final(self).results@.last();
                &&& final(self).results@.len() == old(self).results@.len() + 1
                &&& final(self).results@.drop_last() == old(self).results@
                &&& is_trial(tag, anchors@, coefficients@, res)
                &&& res.anchor_pts == anchors
                &&& call_ensures(S::solve, (&old(self).callback, &anchors, &res.adjusted_distances),
                        Ok::<Point<T>, SolveError>(res.predicted_pt))
                &&& finiteness(res.predicted_pt.x, true)
                &&& finiteness(res.predicted_pt.y, true)
            },
            final(self).failures != old(self).failures ==> {
                &&& final(self).failures == old(self).failures + 1
                &&& final(self).results@ == old(self).results@
                &&& exists|ranges: Vec<T>, o: Result<Point<T>, SolveError>, e: SolveError|
                    #![trigger noisy_ranges(tag, anchors@, coefficients@, ranges@), is_rejection(o, e)]
                {
                    &&& noisy_ranges(tag, anchors@, coefficients@, ranges@)
                    &&& call_ensures(S::solve, (&old(self).callback, &anchors, &ranges), o)
                    &&& is_rejection(o, e)
                }
            },
    {
        match run_trial(&self.callback, tag, anchors, coefficients) {
            Ok(res) => {
                let ghost before = self.results@;
                self.results.push(res);
                assert(self.results@.drop_last() =~= before);
            },
            Err(_) => {
                self.failures = self.failures + 1;
            },
        }
        self.completed = self.completed + 1;
        self.completed < self.times
    }

    /// The error of each successful trial, in order.
    pub fn deltas(&self) -> (r: Vec<T>)
        ensures
            r@.len() == self.results@.len(),
            forall|i: int| 0 <= i < self.results@.len() ==> #[trigger] r@[i] == self.results@[i].delta,
    {
        let mut out: Vec<T> = Vec::new();
        let mut i: usize = 0;
        while i < self.results.len()
            invariant
                i <= self.results@.len(),
                out@.len() == i,
                forall|k: int| 0 <= k < i ==> #[trigger] out@[k] == self.results@[k].delta,
            decreases self.results@.len() - i,
        {
            out.push(self.results[i].delta);
            i = i + 1;
        }
        out
    }
}

} // verus!
