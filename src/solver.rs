use vstd::prelude::*;
use crate::matrix::{Matrix, is_matrix_product, is_divided_by, is_gauss_jordan_inverse, meets_zero_pivot};
use crate::point::{Point, is_norm_squared};
use crate::scalar::{Scalar, is_sum, is_difference, is_product, is_count_value};

verus! {

/// Why no position could be estimated.
#[derive(Debug, Clone, Copy, PartialEq, Eq, Structural)]
pub enum SolveError {
    /// Fewer than three anchors: two unknowns need two independent
    /// range differences.
    TooFewAnchors,
    /// Not exactly one range per anchor.
    LengthMismatch,
    /// The normal equations have no unique solution: the anchors are
    /// collinear or coincide.
    Singular,
    /// An estimate was computed but is not a finite point.
    NonFinite,
}

/// An estimator of a tag's position from anchor positions and the ranges
/// measured to them, in the same order.
pub trait Solver<T> {
    fn solve(&self, anchors: &Vec<Point<T>>, distances: &Vec<T>) -> Result<Point<T>, SolveError>
        requires
            2 * anchors@.len() <= usize::MAX,
    ;
}

/// `r` is `d0² − di² + |ai|² − |a0|²`, the right-hand side of the range
/// difference equation of anchor `ai` against anchor `a0`.
pub open spec fn is_range_rhs<T: Scalar>(d0: T, di: T, a0: Point<T>, ai: Point<T>, r: T) -> bool {
    exists|d0s: T, dis: T, t1: T, an: T, t2: T, a0n: T|
        #![trigger is_product(d0, d0, d0s), is_product(di, di, dis), is_difference(d0s, dis, t1), is_sum(t1, an, t2), is_difference(t2, a0n, r)]
    {
        &&& is_product(d0, d0, d0s)
        &&& is_product(di, di, dis)
        &&& is_difference(d0s, dis, t1)
        &&& is_norm_squared(ai, an)
        &&& is_sum(t1, an, t2)
        &&& is_norm_squared(a0, a0n)
        &&& is_difference(t2, a0n, r)
    }
}

/// `a` and `b` are the range difference system of the anchors: row `i - 1`
/// of `a` is anchor `i` less anchor `0`, and row `i - 1` of `b` is the
/// right-hand side of anchor `i`. The tag `p` satisfies `a·p = b/2`.
pub open spec fn is_range_system<T: Scalar>(anchors: Seq<Point<T>>, distances: Seq<T>, a: Matrix<T>, b: Matrix<T>) -> bool {
    &&& a.has_shape(anchors.len() - 1, 2)
    &&& b.has_shape(anchors.len() - 1, 1)
    &&& forall|i: int| 1 <= i < anchors.len() ==> is_difference(anchors[i].x, anchors[0].x, #[trigger] a.cell(i - 1, 0))
    &&& forall|i: int| 1 <= i < anchors.len() ==> is_difference(anchors[i].y, anchors[0].y, #[trigger] a.cell(i - 1, 1))
    &&& forall|i: int| 1 <= i < anchors.len()
            ==> is_range_rhs(distances[0], distances[i], anchors[0], anchors[i], #[trigger] b.cell(i - 1, 0))
}

/// `p` is the least-squares estimate `(AᵗA)⁻¹ Aᵗ (b/2)` of the range
/// difference system `A`, `b`, with the inverse by Gauss-Jordan elimination
/// and `p` read from the two rows of the result.
pub open spec fn is_least_squares_estimate<T: Scalar>(anchors: Seq<Point<T>>, distances: Seq<T>, p: Point<T>) -> bool {
    exists|a: Matrix<T>, b: Matrix<T>, at: Matrix<T>, normal: Matrix<T>, inverse: Matrix<T>,
        projector: Matrix<T>, two: T, half: Matrix<T>, est: Matrix<T>|
        #![trigger is_range_system(anchors, distances, a, b), at.is_transpose_of(&a), is_matrix_product(at, a, normal),
            is_gauss_jordan_inverse(normal, inverse), is_matrix_product(inverse, at, projector), is_divided_by(b, two, half),
            is_matrix_product(projector, half, est)]
    {
        &&& is_range_system(anchors, distances, a, b)
        &&& at.is_transpose_of(&a)
        &&& is_matrix_product(at, a, normal)
        &&& is_gauss_jordan_inverse(normal, inverse)
        &&& is_matrix_product(inverse, at, projector)
        &&& is_count_value(2, two)
        &&& is_divided_by(b, two, half)
        &&& is_matrix_product(projector, half, est)
        &&& p.x == est.cell(0, 0)
        &&& p.y == est.cell(1, 0)
    }
}

/// The normal matrix `AᵗA` of the range difference system meets a zero
/// pivot under Gauss-Jordan elimination.
pub open spec fn has_singular_normal_matrix<T: Scalar>(anchors: Seq<Point<T>>, distances: Seq<T>) -> bool {
    exists|a: Matrix<T>, b: Matrix<T>, at: Matrix<T>, normal: Matrix<T>|
        #![trigger is_range_system(anchors, distances, a, b), at.is_transpose_of(&a), is_matrix_product(at, a, normal)]
    {
        &&& is_range_system(anchors, distances, a, b)
        &&& at.is_transpose_of(&a)
        &&& is_matrix_product(at, a, normal)
        &&& meets_zero_pivot(normal)
    }
}

/// The range difference system of anchors `1..n` against anchor `0`.
pub fn range_system<T: Scalar>(anchors: &Vec<Point<T>>, distances: &Vec<T>) -> (r: (Matrix<T>, Matrix<T>))
    requires
        anchors@.len() >= 1,
        distances@.len() == anchors@.len(),
        2 * anchors@.len() <= usize::MAX,
    ensures
        is_range_system(anchors@, distances@, r.0, r.1),
{
    let n = anchors.len();
    let mut a: Matrix<T> = Matrix::new(n - 1, 2);
    let mut b: Matrix<T> = Matrix::new(n - 1, 1);
    let a0 = anchors[0];
    let d0 = distances[0];
    let d0s = d0.times(d0);
    let a0n = a0.norm_squared();
    let mut i: usize = 1;
    while i < n
        invariant
            n == anchors@.len(),
            n == distances@.len(),
            1 <= i <= n,
            a0 == anchors@[0],
            d0 == distances@[0],
            is_product(d0, d0, d0s),
            is_norm_squared(a0, a0n),
            a.has_shape(n - 1, 2),
            b.has_shape(n - 1, 1),
            forall|k: int| 1 <= k < i ==> is_difference(anchors@[k].x, a0.x, #[trigger] a.cell(k - 1, 0)),
            forall|k: int| 1 <= k < i ==> is_difference(anchors@[k].y, a0.y, #[trigger] a.cell(k - 1, 1)),
            forall|k: int| 1 <= k < i ==> is_range_rhs(d0, distances@[k], a0, anchors@[k], #[trigger] b.cell(k - 1, 0)),
        decreases n - i,
    {
        let ai = anchors[i];
        let di = distances[i];
        let dx = ai.x.minus(a0.x);
        let dy = ai.y.minus(a0.y);
        a.set(i - 1, 0, dx);
        a.set(i - 1, 1, dy);
        let dis = di.times(di);
        let t1 = d0s.minus(dis);
        let an = ai.norm_squared();
        let t2 = t1.plus(an);
        let rhs = t2.minus(a0n);
        assert(is_product(d0, d0, d0s) && is_product(di, di, dis) && is_difference(d0s, dis, t1)
            && is_sum(t1, an, t2) && is_difference(t2, a0n, rhs));
        b.set(i - 1, 0, rhs);
        i = i + 1;
    }
    (a, b)
}

/// The least-squares estimate `(AᵗA)⁻¹ Aᵗ (b/2)` of the range difference
/// system. With three anchors the system is square and the estimate exact.
pub fn solve_least_squares<T: Scalar>(anchors: &Vec<Point<T>>, distances: &Vec<T>) -> (r: Result<Point<T>, SolveError>)
    requires
        2 * anchors@.len() <= usize::MAX,
    ensures
        anchors@.len() < 3 <==> r == Err::<Point<T>, SolveError>(SolveError::TooFewAnchors),
        anchors@.len() >= 3 && distances@.len() != anchors@.len()
            <==> r == Err::<Point<T>, SolveError>(SolveError::LengthMismatch),
        r.is_err() ==> r == Err::<Point<T>, SolveError>(SolveError::TooFewAnchors)
            || r == Err::<Point<T>, SolveError>(SolveError::LengthMismatch)
            || r == Err::<Point<T>, SolveError>(SolveError::Singular),
        r.is_ok() ==> is_least_squares_estimate(anchors@, distances@, r->Ok_0),
        r == Err::<Point<T>, SolveError>(SolveError::Singular) ==> has_singular_normal_matrix(anchors@, distances@),
{
    if anchors.len() < 3 {
        return Err(SolveError::TooFewAnchors);
    }
    if distances.len() != anchors.len() {
        return Err(SolveError::LengthMismatch);
    }
    let (a, b) = range_system(anchors, distances);
    let a_t = a.transpose();
    let normal = a_t.dot(&a).unwrap();
    let inverse = match normal.invert() {
        Ok(m) => m,
        Err(_) => {
            assert(is_range_system(anchors@, distances@, a, b) && a_t.is_transpose_of(&a) && is_matrix_product(a_t, a, normal));
            return Err(SolveError::Singular);
        },
    };
    let two = T::from_count(2);
    let half_b = b.divided_by_scalar(two);
    let projector = inverse.dot(&a_t).unwrap();
    let estimate = projector.dot(&half_b).unwrap();
    let x = estimate.get(0, 0).unwrap();
    let y = estimate.get(1, 0).unwrap();
    let p = Point::new(x, y);
    assert(is_range_system(anchors@, distances@, a, b) && a_t.is_transpose_of(&a) && is_matrix_product(a_t, a, normal)
        && is_gauss_jordan_inverse(normal, inverse) && is_matrix_product(inverse, a_t, projector)
        && is_divided_by(b, two, half_b) && is_matrix_product(projector, half_b, estimate));
    Ok(p)
}

/// The least-squares trilateration estimator.
pub struct LeastSquares;

impl<T: Scalar> Solver<T> for LeastSquares {
    fn solve(&self, anchors: &Vec<Point<T>>, distances: &Vec<T>) -> (r: Result<Point<T>, SolveError>)
        ensures
            anchors@.len() < 3 <==> r == Err::<Point<T>, SolveError>(SolveError::TooFewAnchors),
            anchors@.len() >= 3 && distances@.len() != anchors@.len()
                <==> r == Err::<Point<T>, SolveError>(SolveError::LengthMismatch),
            r.is_ok() ==> is_least_squares_estimate(anchors@, distances@, r->Ok_0),
            r == Err::<Point<T>, SolveError>(SolveError::Singular) ==> has_singular_normal_matrix(anchors@, distances@),
    {
        solve_least_squares(anchors, distances)
    }
}

} // verus!
