use rand::distributions::Uniform;
use rand::rngs::StdRng;
use rand::{Rng, SeedableRng};
use trilateration::point::Point;
use trilateration::rectangle::Rectangle;
use trilateration::scalar::Scalar;
use trilateration::solver::{LeastSquares, SolveError, Solver};
use trilateration::stats::{
    calculate_mean, calculate_median, calculate_std, count_exceeding, identify_outliers, relative_percentages,
};
use trilateration::test_runner::{record_trial, run_trial, ConfigError, TestRunner};

#[derive(Debug, Clone, Copy, PartialEq)]
struct Real(f64);

impl Scalar for Real {
    fn zero() -> Self {
        Real(0.0)
    }
    fn one() -> Self {
        Real(1.0)
    }
    fn from_count(n: usize) -> Self {
        Real(n as f64)
    }
    fn plus(self, rhs: Self) -> Self {
        Real(self.0 + rhs.0)
    }
    fn minus(self, rhs: Self) -> Self {
        Real(self.0 - rhs.0)
    }
    fn times(self, rhs: Self) -> Self {
        Real(self.0 * rhs.0)
    }
    fn divided_by(self, rhs: Self) -> Self {
        Real(self.0 / rhs.0)
    }
    fn square_root(self) -> Self {
        Real(self.0.sqrt())
    }
    fn magnitude(self) -> Self {
        Real(self.0.abs())
    }
    fn exceeds(self, rhs: Self) -> bool {
        self.0 > rhs.0
    }
    fn is_zero(self) -> bool {
        self.0 == 0.0
    }
    fn is_finite(self) -> bool {
        self.0.is_finite()
    }
}

fn reals(values: &[f64]) -> Vec<Real> {
    values.iter().map(|v| Real(*v)).collect()
}

fn pt(x: f64, y: f64) -> Point<Real> {
    Point::new(Real(x), Real(y))
}

fn close(a: f64, b: f64, tol: f64) -> bool {
    (a - b).abs() <= tol
}

/// Drives a run as a program would: draws the layout and noise from `rng`
/// and hands them to the runner until it is finished.
fn drive(
    runner: &mut TestRunner<Real, LeastSquares>,
    rng: &mut StdRng,
    bounds: &Rectangle<Real>,
    fixed_anchors: Option<&Vec<Point<Real>>>,
) {
    let (x0, x1) = bounds.x_range();
    let (y0, y1) = bounds.y_range();
    let xs = Uniform::from(x0.0..=x1.0);
    let ys = Uniform::from(y0.0..=y1.0);
    let n = runner.num_of_anchors as usize;
    let margin = runner.error_margin.0;
    let mut draw = |rng: &mut StdRng| -> (Point<Real>, Vec<Point<Real>>) {
        let tag = pt(rng.sample(&xs), rng.sample(&ys));
        let anchors = match fixed_anchors {
            Some(a) => a.clone(),
            None => (0..n).map(|_| pt(rng.sample(&xs), rng.sample(&ys))).collect(),
        };
        (tag, anchors)
    };
    let (mut tag, mut anchors) = draw(rng);
    while !runner.is_finished() {
        let coefficients: Vec<Real> = (0..n).map(|_| Real(rng.gen_range(-margin..margin))).collect();
        if runner.trial(tag, anchors.clone(), coefficients) {
            let next = draw(rng);
            tag = next.0;
            anchors = next.1;
        }
    }
}

#[test]
fn statistics_of_one_to_five() {
    let v = reals(&[1.0, 2.0, 3.0, 4.0, 5.0]);
    assert_eq!(calculate_mean(&v), Some(Real(3.0)));
    assert_eq!(calculate_median(&v), Some(Real(3.0)));
    let s = calculate_std(&v).unwrap().0;
    assert!(close(s, 1.5811, 1e-4));
    assert!(close(s, 2.5f64.sqrt(), 1e-12));
}

#[test]
fn median_sorts_first() {
    assert_eq!(calculate_median(&reals(&[9.0, 1.0, 5.0])), Some(Real(5.0)));
    assert_eq!(calculate_median(&reals(&[4.0, 1.0, 3.0, 2.0])), Some(Real(2.5)));
    assert_eq!(calculate_median(&reals(&[7.0])), Some(Real(7.0)));
    assert_eq!(calculate_median(&reals(&[8.0, 8.0, 1.0, 8.0])), Some(Real(8.0)));
}

#[test]
fn statistics_on_too_few_values() {
    let empty: Vec<Real> = Vec::new();
    assert_eq!(calculate_mean(&empty), None);
    assert_eq!(calculate_median(&empty), None);
    assert_eq!(calculate_std(&empty), None);
    assert_eq!(calculate_std(&reals(&[4.0])), None);
    assert_eq!(identify_outliers(&reals(&[4.0]), Real(2.0)), None);
    assert_eq!(calculate_mean(&reals(&[4.0])), Some(Real(4.0)));
}

#[test]
fn outliers_flag_only_the_far_value() {
    let v = reals(&[1.0, 2.0, 3.0, 4.0, 100.0]);
    assert_eq!(identify_outliers(&v, Real(1.5)), Some(reals(&[100.0])));
    let mut many = vec![1.0; 20];
    many.push(100.0);
    assert_eq!(identify_outliers(&reals(&many), Real(2.0)), Some(reals(&[100.0])));
}

#[test]
fn outliers_at_threshold_two_on_a_short_sample() {
    // With the sample deviation (divisor n - 1) the z-score of 100 is about
    // 78 / 43.6 = 1.79, below a threshold of 2.
    let v = reals(&[1.0, 2.0, 3.0, 4.0, 100.0]);
    let s = calculate_std(&v).unwrap().0;
    assert!(close(s, 1902.5f64.sqrt(), 1e-9));
    assert_eq!(identify_outliers(&v, Real(2.0)), Some(Vec::new()));
}

#[test]
fn exceeding_counts_and_percentages() {
    let v = reals(&[1.0, 5.0, 10.0, 20.0]);
    assert_eq!(count_exceeding(&v, Real(5.0)), 2);
    assert_eq!(count_exceeding(&v, Real(100.0)), 0);
    assert_eq!(count_exceeding(&v, Real(0.0)), 4);
    assert_eq!(relative_percentages(&v, Real(40.0)), reals(&[2.5, 12.5, 25.0, 50.0]));
}

#[test]
fn configuration_is_checked() {
    assert!(matches!(TestRunner::new(2, Real(0.05), 10, LeastSquares), Err(ConfigError::TooFewAnchors)));
    assert!(matches!(TestRunner::new(3, Real(0.05), 0, LeastSquares), Err(ConfigError::NoTrials)));
    assert!(matches!(TestRunner::new(3, Real(0.0), 10, LeastSquares), Err(ConfigError::ErrorMarginOutOfRange)));
    assert!(matches!(TestRunner::new(3, Real(1.0), 10, LeastSquares), Err(ConfigError::ErrorMarginOutOfRange)));
    assert!(matches!(TestRunner::new(3, Real(-0.5), 10, LeastSquares), Err(ConfigError::ErrorMarginOutOfRange)));
    assert!(TestRunner::new(3, Real(0.05), 1, LeastSquares).is_ok());
}

#[test]
fn trial_records_measurements() {
    let anchors = vec![pt(0.0, 0.0), pt(10.0, 0.0), pt(0.0, 10.0)];
    let res = run_trial(&LeastSquares, pt(3.0, 4.0), anchors.clone(), reals(&[0.1, 0.0, -0.1])).unwrap();
    assert_eq!(res.anchor_pts, anchors);
    assert_eq!(res.real_distances[0], Real(5.0));
    assert!(close(res.adjusted_distances[0].0, 5.5, 1e-12));
    assert_eq!(res.adjusted_distances[1], res.real_distances[1]);
    assert!(close(res.adjusted_distances[2].0, 45f64.sqrt() * 0.9, 1e-12));
    let expected = res.tag_pt.distance_to(&res.predicted_pt);
    assert_eq!(res.delta, expected);
    assert!(res.delta.0 > 0.0);
}

/// A solver that places every tag at infinity.
struct Faraway;

impl Solver<Real> for Faraway {
    fn solve(&self, _anchors: &Vec<Point<Real>>, _distances: &Vec<Real>) -> Result<Point<Real>, SolveError> {
        Ok(pt(f64::INFINITY, f64::NAN))
    }
}

#[test]
fn non_finite_estimates_are_failures() {
    let anchors = vec![pt(0.0, 0.0), pt(10.0, 0.0), pt(0.0, 10.0)];
    let noise = reals(&[0.0, 0.0, 0.0]);
    assert!(matches!(run_trial(&Faraway, pt(1.0, 1.0), anchors.clone(), noise.clone()), Err(SolveError::NonFinite)));
    let mut runner = TestRunner::new(3, Real(0.01), 1, Faraway).unwrap();
    assert!(!runner.trial(pt(1.0, 1.0), anchors, noise));
    assert_eq!(runner.failures, 1);
    assert!(runner.results.is_empty());
}

#[test]
fn record_trial_on_each_outcome() {
    let anchors = vec![pt(0.0, 0.0), pt(10.0, 0.0), pt(0.0, 10.0)];
    let measured = reals(&[5.0, 65f64.sqrt(), 45f64.sqrt()]);
    let noise = reals(&[0.0, 0.0, 0.0]);
    let tag = pt(3.0, 4.0);
    let ok = record_trial(tag, anchors.clone(), measured.clone(), noise.clone(), measured.clone(), Ok(pt(6.0, 8.0)))
        .unwrap();
    assert_eq!(ok.predicted_pt, pt(6.0, 8.0));
    assert_eq!(ok.delta, Real(5.0));
    assert_eq!(ok.real_distances, measured);
    let failed = record_trial(tag, anchors.clone(), measured.clone(), noise.clone(), measured.clone(), Err(SolveError::Singular));
    assert!(matches!(failed, Err(SolveError::Singular)));
    let infinite = record_trial(tag, anchors, measured.clone(), noise, measured, Ok(pt(1.0, f64::INFINITY)));
    assert!(matches!(infinite, Err(SolveError::NonFinite)));
}

#[test]
fn solver_failures_are_handed_back() {
    let collinear = vec![pt(0.0, 0.0), pt(1.0, 0.0), pt(2.0, 0.0)];
    let noise = reals(&[0.0, 0.0, 0.0]);
    assert!(matches!(run_trial(&LeastSquares, pt(1.0, 1.0), collinear, noise), Err(SolveError::Singular)));
}

#[test]
fn runner_asks_for_fresh_layouts_except_after_the_last() {
    let mut runner = TestRunner::new(3, Real(0.01), 3, LeastSquares).unwrap();
    let anchors = vec![pt(0.0, 0.0), pt(10.0, 0.0), pt(0.0, 10.0)];
    let noise = reals(&[0.0, 0.0, 0.0]);
    assert!(runner.trial(pt(1.0, 1.0), anchors.clone(), noise.clone()));
    assert!(runner.trial(pt(2.0, 2.0), anchors.clone(), noise.clone()));
    assert!(!runner.is_finished());
    assert!(!runner.trial(pt(3.0, 3.0), anchors.clone(), noise.clone()));
    assert!(runner.is_finished());
    assert_eq!(runner.results.len(), 3);
    assert_eq!(runner.failures, 0);
    assert_eq!(runner.results[2].tag_pt, pt(3.0, 3.0));
    for d in runner.deltas() {
        assert!(d.0 < 1e-9);
    }
}

#[test]
fn runner_leaves_out_failed_trials() {
    let mut runner = TestRunner::new(3, Real(0.01), 2, LeastSquares).unwrap();
    let collinear = vec![pt(0.0, 0.0), pt(1.0, 0.0), pt(2.0, 0.0)];
    let good = vec![pt(0.0, 0.0), pt(10.0, 0.0), pt(0.0, 10.0)];
    let noise = reals(&[0.0, 0.0, 0.0]);
    assert!(runner.trial(pt(1.0, 1.0), collinear, noise.clone()));
    assert!(!runner.trial(pt(1.0, 1.0), good, noise));
    assert_eq!(runner.completed, 2);
    assert_eq!(runner.failures, 1);
    assert_eq!(runner.results.len(), 1);
    assert_eq!(runner.deltas().len(), 1);
}

#[test]
fn noise_free_runs_have_no_error() {
    let bounds = Rectangle::new(Real(0.0), Real(0.0), Real(400.0), Real(400.0));
    let mut runner = TestRunner::new(4, Real(1e-15), 200, LeastSquares).unwrap();
    let mut rng = StdRng::seed_from_u64(7);
    drive(&mut runner, &mut rng, &bounds, None);
    assert_eq!(runner.completed, 200);
    for r in &runner.results {
        assert!(r.delta.0 < 1e-6 * (1.0 + r.tag_pt.x.0.abs()), "delta {}", r.delta.0);
    }
}

fn seeded_study(seed: u64) -> (Real, Real, Real, usize) {
    let bounds = Rectangle::new(Real(0.0), Real(0.0), Real(400.0), Real(400.0));
    let corners = vec![pt(0.0, 0.0), pt(400.0, 0.0), pt(0.0, 400.0)];
    let mut runner = TestRunner::new(3, Real(0.05), 1000, LeastSquares).unwrap();
    let mut rng = StdRng::seed_from_u64(seed);
    drive(&mut runner, &mut rng, &bounds, Some(&corners));
    let deltas = runner.deltas();
    (
        calculate_mean(&deltas).unwrap(),
        calculate_median(&deltas).unwrap(),
        calculate_std(&deltas).unwrap(),
        deltas.len(),
    )
}

#[test]
fn seeded_study_is_reproducible() {
    let first = seeded_study(42);
    let second = seeded_study(42);
    assert_eq!(first, second);
    assert_eq!(first.3, 1000);
    assert!(first.0 .0 > 0.0 && first.0 .0 < 400.0);
    assert!(first.2 .0 > 0.0);
    let other = seeded_study(43);
    assert_ne!(first.0, other.0);
}
