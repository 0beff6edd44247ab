use trilateration::matrix::{Matrix, MatrixError};
use trilateration::point::Point;
use trilateration::rectangle::{Contains, Rectangle};
use trilateration::scalar::Scalar;
use trilateration::solver::{solve_least_squares, range_system, LeastSquares, SolveError, Solver};

#[derive(Debug, Clone, Copy, PartialEq)]
struct Real(f64);

impl Scalar for Real {
    fn zero() -> Self {
        Real(0.0)
    }
    fn one() -> Self {
        Real(1.0)
    }
    fn from_count(n: usize) -> Self {
        Real(n as f64)
    }
    fn plus(self, rhs: Self) -> Self {
        Real(self.0 + rhs.0)
    }
    fn minus(self, rhs: Self) -> Self {
        Real(self.0 - rhs.0)
    }
    fn times(self, rhs: Self) -> Self {
        Real(self.0 * rhs.0)
    }
    fn divided_by(self, rhs: Self) -> Self {
        Real(self.0 / rhs.0)
    }
    fn square_root(self) -> Self {
        Real(self.0.sqrt())
    }
    fn magnitude(self) -> Self {
        Real(self.0.abs())
    }
    fn exceeds(self, rhs: Self) -> bool {
        self.0 > rhs.0
    }
    fn is_zero(self) -> bool {
        self.0 == 0.0
    }
    fn is_finite(self) -> bool {
        self.0.is_finite()
    }
}

fn mat(rows: usize, cols: usize, values: &[f64]) -> Matrix<Real> {
    Matrix::from_iter(rows, cols, values.iter().map(|v| Real(*v)).collect())
}

fn cells(m: &Matrix<Real>) -> Vec<f64> {
    m.data.iter().map(|v| v.0).collect()
}

fn close(a: f64, b: f64, tol: f64) -> bool {
    (a - b).abs() <= tol
}

fn pt(x: f64, y: f64) -> Point<Real> {
    Point::new(Real(x), Real(y))
}

#[test]
fn new_is_zero_filled() {
    let m: Matrix<Real> = Matrix::new(2, 3);
    assert_eq!(m.n_rows, 2);
    assert_eq!(m.n_cols, 3);
    assert_eq!(cells(&m), vec![0.0; 6]);
}

#[test]
fn from_iter_takes_leading_items_row_major() {
    let m = mat(2, 2, &[1.0, 2.0, 3.0, 4.0, 5.0]);
    assert_eq!(cells(&m), vec![1.0, 2.0, 3.0, 4.0]);
    assert_eq!(m.get(0, 1), Some(Real(2.0)));
    assert_eq!(m.get(1, 0), Some(Real(3.0)));
}

#[test]
fn get_outside_is_none() {
    let m = mat(2, 2, &[1.0, 2.0, 3.0, 4.0]);
    assert_eq!(m.get(2, 0), None);
    assert_eq!(m.get(0, 2), None);
}

#[test]
fn set_writes_one_cell() {
    let mut m = mat(2, 2, &[1.0, 2.0, 3.0, 4.0]);
    assert_eq!(m.set(1, 0, Real(9.0)), Some(()));
    assert_eq!(cells(&m), vec![1.0, 2.0, 9.0, 4.0]);
    assert_eq!(m.set(0, 5, Real(7.0)), None);
    assert_eq!(cells(&m), vec![1.0, 2.0, 9.0, 4.0]);
}

#[test]
fn get_mut_reaches_one_cell() {
    let mut m = mat(2, 3, &[1.0, 2.0, 3.0, 4.0, 5.0, 6.0]);
    if let Some(c) = m.get_mut(1, 2) {
        *c = Real(-6.0);
    }
    assert_eq!(cells(&m), vec![1.0, 2.0, 3.0, 4.0, 5.0, -6.0]);
    assert!(m.get_mut(2, 0).is_none());
    assert!(m.get_mut(0, 3).is_none());
}

#[test]
fn filled_repeats_the_value() {
    let m = Matrix::filled(2, 2, Real(7.5));
    assert_eq!(cells(&m), vec![7.5; 4]);
}

#[test]
fn shape_queries() {
    let a = mat(2, 3, &[0.0; 6]);
    let b = mat(2, 3, &[1.0; 6]);
    let c = mat(3, 2, &[1.0; 6]);
    assert!(a.same_size_as(&b));
    assert!(!a.same_size_as(&c));
    assert!(!a.is_square());
    assert!(mat(2, 2, &[0.0; 4]).is_square());
}

#[test]
fn rows_and_columns() {
    let m = mat(2, 3, &[1.0, 2.0, 3.0, 4.0, 5.0, 6.0]);
    assert_eq!(m.get_row(1), Some(vec![Real(4.0), Real(5.0), Real(6.0)]));
    assert_eq!(m.get_col(2), Some(vec![Real(3.0), Real(6.0)]));
    assert_eq!(m.get_row(2), None);
    assert_eq!(m.get_col(3), None);
}

#[test]
fn transpose_swaps_shape_and_cells() {
    let m = mat(2, 3, &[1.0, 2.0, 3.0, 4.0, 5.0, 6.0]);
    let t = m.transpose();
    assert_eq!(t.n_rows, 3);
    assert_eq!(t.n_cols, 2);
    assert_eq!(cells(&t), vec![1.0, 4.0, 2.0, 5.0, 3.0, 6.0]);
}

#[test]
fn transpose_twice_gives_back_the_matrix() {
    let m = mat(3, 2, &[1.5, -2.0, 0.0, 7.25, 3.0, 9.0]);
    let back = m.transpose().transpose();
    assert_eq!(back.n_rows, 3);
    assert_eq!(back.n_cols, 2);
    assert_eq!(cells(&back), cells(&m));
}

#[test]
fn add_then_subtract_restores() {
    let a = mat(2, 2, &[0.1, 0.2, 0.3, 0.4]);
    let b = mat(2, 2, &[10.0, -3.5, 1e-3, 7.0]);
    let back = a.plus(&b).unwrap().minus(&b).unwrap();
    for (x, y) in cells(&back).iter().zip(cells(&a).iter()) {
        assert!(close(*x, *y, 1e-12));
    }
}

#[test]
fn elementwise_operations() {
    let a = mat(1, 3, &[6.0, 8.0, 10.0]);
    let b = mat(1, 3, &[2.0, 4.0, 5.0]);
    assert_eq!(cells(&a.plus(&b).unwrap()), vec![8.0, 12.0, 15.0]);
    assert_eq!(cells(&a.minus(&b).unwrap()), vec![4.0, 4.0, 5.0]);
    assert_eq!(cells(&a.times(&b).unwrap()), vec![12.0, 32.0, 50.0]);
    assert_eq!(cells(&a.divided_by(&b).unwrap()), vec![3.0, 2.0, 2.0]);
}

#[test]
fn elementwise_shape_mismatch() {
    let a = mat(2, 2, &[1.0; 4]);
    let b = mat(1, 4, &[1.0; 4]);
    assert_eq!(a.plus(&b), Err(MatrixError::ShapeMismatch));
    assert_eq!(a.minus(&b), Err(MatrixError::ShapeMismatch));
    assert_eq!(a.times(&b), Err(MatrixError::ShapeMismatch));
    assert_eq!(a.divided_by(&b), Err(MatrixError::ShapeMismatch));
}

#[test]
fn scalar_operations() {
    let a = mat(1, 2, &[4.0, 10.0]);
    assert_eq!(cells(&a.plus_scalar(Real(1.0))), vec![5.0, 11.0]);
    assert_eq!(cells(&a.minus_scalar(Real(1.0))), vec![3.0, 9.0]);
    assert_eq!(cells(&a.times_scalar(Real(3.0))), vec![12.0, 30.0]);
    assert_eq!(cells(&a.divided_by_scalar(Real(2.0))), vec![2.0, 5.0]);
}

#[test]
fn apply_mut_and_map() {
    let mut a = mat(1, 3, &[1.0, 2.0, 3.0]);
    let doubled = a.map(|v: Real| Real(v.0 * 2.0));
    assert_eq!(cells(&doubled), vec![2.0, 4.0, 6.0]);
    a.apply_mut(|v: Real| Real(-v.0));
    assert_eq!(cells(&a), vec![-1.0, -2.0, -3.0]);
}

#[test]
fn zip_with_combines_cells() {
    let a = mat(1, 2, &[1.0, 5.0]);
    let b = mat(1, 2, &[3.0, 2.0]);
    let m = a.zip_with(&b, |x: Real, y: Real| if x.0 > y.0 { x } else { y }).unwrap();
    assert_eq!(cells(&m), vec![3.0, 5.0]);
}

#[test]
fn swap_rows_exchanges() {
    let mut m = mat(3, 2, &[1.0, 2.0, 3.0, 4.0, 5.0, 6.0]);
    m.swap_rows(0, 2);
    assert_eq!(cells(&m), vec![5.0, 6.0, 3.0, 4.0, 1.0, 2.0]);
}

#[test]
fn dot_product_values() {
    let a = mat(2, 3, &[1.0, 2.0, 3.0, 4.0, 5.0, 6.0]);
    let b = mat(3, 2, &[7.0, 8.0, 9.0, 10.0, 11.0, 12.0]);
    let c = a.dot(&b).unwrap();
    assert_eq!(c.n_rows, 2);
    assert_eq!(c.n_cols, 2);
    assert_eq!(cells(&c), vec![58.0, 64.0, 139.0, 154.0]);
}

#[test]
fn dot_dimension_mismatch() {
    let a = mat(2, 3, &[1.0; 6]);
    let b = mat(2, 3, &[1.0; 6]);
    assert_eq!(a.dot(&b), Err(MatrixError::DimensionMismatch));
    let c = mat(1, 1, &[1.0]);
    assert_eq!(a.dot(&c), Err(MatrixError::DimensionMismatch));
}

#[test]
fn invert_identity_is_identity() {
    let i = mat(3, 3, &[1.0, 0.0, 0.0, 0.0, 1.0, 0.0, 0.0, 0.0, 1.0]);
    assert_eq!(cells(&i.invert().unwrap()), cells(&i));
}

#[test]
fn invert_known_matrix() {
    let a = mat(2, 2, &[4.0, 7.0, 2.0, 6.0]);
    let inv = a.invert().unwrap();
    let expected = [0.6, -0.7, -0.2, 0.4];
    for (x, y) in cells(&inv).iter().zip(expected.iter()) {
        assert!(close(*x, *y, 1e-12));
    }
}

#[test]
fn invert_twice_gives_back() {
    let a = mat(3, 3, &[2.0, -1.0, 0.0, -1.0, 2.0, -1.0, 0.0, -1.0, 2.0]);
    let back = a.invert().unwrap().invert().unwrap();
    for (x, y) in cells(&back).iter().zip(cells(&a).iter()) {
        assert!(close(*x, *y, 1e-9));
    }
}

#[test]
fn invert_needs_row_exchange() {
    let a = mat(2, 2, &[0.0, 1.0, 1.0, 0.0]);
    assert_eq!(cells(&a.invert().unwrap()), vec![0.0, 1.0, 1.0, 0.0]);
}

#[test]
fn invert_identical_rows_is_singular() {
    let a = mat(3, 3, &[1.0, 2.0, 3.0, 1.0, 2.0, 3.0, 0.0, 1.0, 4.0]);
    assert_eq!(a.invert(), Err(MatrixError::Singular));
    let b = mat(2, 2, &[2.0, 4.0, 2.0, 4.0]);
    assert_eq!(b.invert(), Err(MatrixError::Singular));
}

#[test]
fn invert_not_square() {
    let a = mat(2, 3, &[1.0; 6]);
    assert_eq!(a.invert(), Err(MatrixError::NotSquare));
}

#[test]
fn point_arithmetic() {
    let a = pt(3.2, 2.0);
    let b = pt(1.0, 4.0);
    assert_eq!(a.plus(&b), pt(3.2 + 1.0, 6.0));
    assert_eq!(a.minus(&b), pt(3.2 - 1.0, -2.0));
    assert_eq!(a.times(&b), pt(3.2, 8.0));
    assert_eq!(a.divided_by(&b), pt(3.2, 0.5));
    assert_eq!(b.plus_scalar(Real(1.0)), pt(2.0, 5.0));
    assert_eq!(b.minus_scalar(Real(1.0)), pt(0.0, 3.0));
    assert_eq!(b.times_scalar(Real(2.0)), pt(2.0, 8.0));
    assert_eq!(b.divided_by_scalar(Real(2.0)), pt(0.5, 2.0));
}

#[test]
fn point_distance_sum_pow_invert() {
    let a = pt(1.0, 1.0);
    let b = pt(4.0, 5.0);
    assert_eq!(a.distance_to(&b), Real(5.0));
    assert_eq!(b.sum(), Real(9.0));
    assert_eq!(b.pow(2), pt(16.0, 25.0));
    assert_eq!(b.pow(0), pt(1.0, 1.0));
    assert_eq!(pt(2.0, 4.0).pow(-1), pt(0.5, 0.25));
    assert_eq!(b.invert(), pt(5.0, 4.0));
    assert_eq!(b.norm_squared(), Real(41.0));
}

#[test]
fn range_system_rows() {
    let anchors = vec![pt(0.0, 0.0), pt(10.0, 0.0), pt(0.0, 10.0)];
    let distances = vec![Real(5.0), Real(65f64.sqrt()), Real(45f64.sqrt())];
    let (a, b) = range_system(&anchors, &distances);
    assert_eq!(cells(&a), vec![10.0, 0.0, 0.0, 10.0]);
    let expected = [25.0 - 65.0 + 100.0, 25.0 - 45.0 + 100.0];
    for (x, y) in cells(&b).iter().zip(expected.iter()) {
        assert!(close(*x, *y, 1e-9));
    }
}

#[test]
fn solver_exact_with_three_anchors() {
    let anchors = vec![pt(0.0, 0.0), pt(10.0, 0.0), pt(0.0, 10.0)];
    let tag = pt(3.0, 4.0);
    let distances: Vec<Real> = anchors.iter().map(|a| a.distance_to(&tag)).collect();
    let p = solve_least_squares(&anchors, &distances).unwrap();
    assert!(close(p.x.0, 3.0, 1e-9));
    assert!(close(p.y.0, 4.0, 1e-9));
}

#[test]
fn solver_least_squares_with_four_anchors() {
    let anchors = vec![pt(0.0, 0.0), pt(10.0, 0.0), pt(0.0, 10.0), pt(10.0, 10.0)];
    let tag = pt(6.5, 2.25);
    let distances: Vec<Real> = anchors.iter().map(|a| a.distance_to(&tag)).collect();
    let p = LeastSquares.solve(&anchors, &distances).unwrap();
    assert!(close(p.x.0, 6.5, 1e-9));
    assert!(close(p.y.0, 2.25, 1e-9));
}

#[test]
fn solver_errors() {
    let two = vec![pt(0.0, 0.0), pt(1.0, 0.0)];
    assert_eq!(solve_least_squares(&two, &vec![Real(1.0), Real(1.0)]), Err(SolveError::TooFewAnchors));
    let three = vec![pt(0.0, 0.0), pt(1.0, 0.0), pt(0.0, 1.0)];
    assert_eq!(solve_least_squares(&three, &vec![Real(1.0), Real(1.0)]), Err(SolveError::LengthMismatch));
    let collinear = vec![pt(0.0, 0.0), pt(1.0, 0.0), pt(2.0, 0.0)];
    assert_eq!(
        solve_least_squares(&collinear, &vec![Real(1.0), Real(1.0), Real(1.0)]),
        Err(SolveError::Singular)
    );
}

#[test]
fn rectangle_ranges_and_span() {
    let r = Rectangle::new(Real(100.0), Real(100.0), Real(400.0), Real(300.0));
    assert_eq!(r.x_range(), (Real(100.0), Real(500.0)));
    assert_eq!(r.y_range(), (Real(100.0), Real(400.0)));
    assert_eq!(r.calc_max_span(), Real(500.0));
}

#[test]
fn rectangle_contains_point_strictly() {
    let r = Rectangle::new(Real(0.0), Real(0.0), Real(10.0), Real(5.0));
    assert!(r.contains(&pt(5.0, 2.0)));
    assert!(!r.contains(&pt(0.0, 2.0)));
    assert!(!r.contains(&pt(5.0, 5.0)));
    assert!(!r.contains(&pt(11.0, 2.0)));
    assert!(r.contains_point(&pt(9.9, 4.9)));
}
