use vstd::prelude::*;
use vstd::arithmetic::div_mod::{lemma_fundamental_div_mod, lemma_mod_pos_bound, lemma_div_pos_is_pos};
use crate::scalar::{Scalar, is_zero_value, is_one_value, is_sum, is_difference, is_product, is_quotient, is_magnitude, compares_above};

verus! {

/// Why a matrix operation could not be carried out.
#[derive(Debug, Clone, Copy, PartialEq, Eq, Structural)]
pub enum MatrixError {
    /// An elementwise operation on matrices of different shapes.
    ShapeMismatch,
    /// A product whose left factor has not as many columns as the right has rows.
    DimensionMismatch,
    /// An inversion of a matrix that is not square.
    NotSquare,
    /// An inversion that met a zero pivot after partial pivoting.
    Singular,
}

/// The cell at `row`, `col` of row-major storage `s` with `cols` columns.
pub open spec fn at<T>(s: Seq<T>, cols: int, row: int, col: int) -> T {
    s[row * cols + col]
}

/// A dense matrix stored in row-major order.
#[derive(Debug, Clone, PartialEq)]
pub struct Matrix<T> {
    pub data: Vec<T>,
    pub n_rows: usize,
    pub n_cols: usize,
}

impl<T: Copy> Matrix<T> {
    /// The storage holds exactly one cell per row and column, and every
    /// position in it is a `usize`.
    pub open spec fn wf(&self) -> bool {
        &&& self.data@.len() == self.n_rows * self.n_cols
        &&& self.n_rows * self.n_cols <= usize::MAX
    }

    /// The cell at `row`, `col`.
    pub open spec fn cell(&self, row: int, col: int) -> T {
        at(self.data@, self.n_cols as int, row, col)
    }

    pub open spec fn has_shape(&self, rows: int, cols: int) -> bool {
        &&& self.wf()
        &&& self.n_rows == rows
        &&& self.n_cols == cols
    }

    /// A matrix of the given shape with every cell equal to `value`.
    pub fn filled(n_rows: usize, n_cols: usize, value: T) -> (r: Self)
        requires
            n_rows * n_cols <= usize::MAX,
        ensures
            r.has_shape(n_rows as int, n_cols as int),
            forall|i: int, j: int| 0 <= i < n_rows && 0 <= j < n_cols ==> #[trigger] r.cell(i, j) == value,
    {
        let n: usize = n_rows * n_cols;
        let mut data: Vec<T> = Vec::with_capacity(n);
        let mut k: usize = 0;
        while k < n
            invariant
                k <= n,
                data@.len() == k,
                forall|t: int| 0 <= t < k ==> data@[t] == value,
            decreases n - k,
        {
            data.push(value);
            k = k + 1;
        }
        let r = Matrix { data, n_rows, n_cols };
        assert forall|i: int, j: int| 0 <= i < n_rows && 0 <= j < n_cols implies #[trigger] r.cell(i, j) == value by {
            lemma_index_in_bounds(i, j, n_rows as int, n_cols as int);
        }
        r
    }

    /// A matrix of the given shape whose cells, row by row, are the first
    /// `n_rows * n_cols` items of `data`.
    pub fn from_iter(n_rows: usize, n_cols: usize, data: Vec<T>) -> (r: Self)
        requires
            n_rows * n_cols <= data@.len(),
        ensures
            r.has_shape(n_rows as int, n_cols as int),
            r.data@ == data@.subrange(0, n_rows * n_cols),
    {
        let mut data = data;
        if data.len() > n_rows * n_cols {
            data.truncate(n_rows * n_cols);
        }
        Matrix { data, n_rows, n_cols }
    }

    pub fn same_size_as(&self, mat: &Matrix<T>) -> (r: bool)
        ensures
            r == (self.n_rows == mat.n_rows && self.n_cols == mat.n_cols),
    {
        self.n_rows == mat.n_rows && self.n_cols == mat.n_cols
    }

    pub fn is_square(&self) -> (r: bool)
        ensures
            r == (self.n_rows == self.n_cols),
    {
        self.n_rows == self.n_cols
    }

    /// The cell at `row`, `col`, or `None` outside the matrix.
    pub fn get(&self, row: usize, col: usize) -> (r: Option<T>)
        requires
            self.wf(),
        ensures
            r.is_some() <==> (row < self.n_rows && col < self.n_cols),
            r.is_some() ==> r.unwrap() == self.cell(row as int, col as int),
    {
        if row < self.n_rows && col < self.n_cols {
            proof {
                lemma_index_in_bounds(row as int, col as int, self.n_rows as int, self.n_cols as int);
            }
            Some(self.data[row * self.n_cols + col])
        } else {
            None
        }
    }

    /// A mutable reference to the cell at `row`, `col`, or `None` outside
    /// the matrix.
    pub fn get_mut(&mut self, row: usize, col: usize) -> (r: Option<&mut T>)
        requires
            old(self).wf(),
        ensures
            r.is_some() <==> (row < old(self).n_rows && col < old(self).n_cols),
            r.is_none() ==> *final(self) == *old(self),
            r.is_some() ==> *r->Some_0 == old(self).cell(row as int, col as int),
            r.is_some() ==> {
                &&& final(self).n_rows == old(self).n_rows
                &&& final(self).n_cols == old(self).n_cols
                &&& final(self).data@ == old(self).data@.update(row * old(self).n_cols + col, *final(r->Some_0))
            },
    {
        if row < self.n_rows && col < self.n_cols {
            proof {
                lemma_index_in_bounds(row as int, col as int, self.n_rows as int, self.n_cols as int);
            }
            let k = row * self.n_cols + col;
            Some(&mut self.data[k])
        } else {
            None
        }
    }

    /// Writes `value` into the cell at `row`, `col`; `None`, and no change,
    /// outside the matrix.
    pub fn set(&mut self, row: usize, col: usize, value: T) -> (r: Option<()>)
        requires
            old(self).wf(),
        ensures
            final(self).has_shape(old(self).n_rows as int, old(self).n_cols as int),
            r.is_some() <==> (row < old(self).n_rows && col < old(self).n_cols),
            r.is_none() ==> *final(self) == *old(self),
            r.is_some() ==> final(self).cell(row as int, col as int) == value,
            r.is_some() ==> forall|i: int, j: int|
                0 <= i < old(self).n_rows && 0 <= j < old(self).n_cols && (i != row || j != col)
                ==> #[trigger] final(self).cell(i, j) == old(self).cell(i, j),
    {
        if row < self.n_rows && col < self.n_cols {
            proof {
                lemma_index_in_bounds(row as int, col as int, self.n_rows as int, self.n_cols as int);
            }
            let k = row * self.n_cols + col;
            self.data.set(k, value);
            proof {
                assert forall|i: int, j: int|
                    0 <= i < self.n_rows && 0 <= j < self.n_cols && (i != row || j != col)
                    implies #[trigger] self.cell(i, j) == old(self).cell(i, j) by {
                    lemma_index_in_bounds(i, j, self.n_rows as int, self.n_cols as int);
                    if i * self.n_cols + j == row * self.n_cols + col {
                        lemma_index_injective(i, j, row as int, col as int, self.n_cols as int);
                    }
                }
            }
            Some(())
        } else {
            None
        }
    }

    /// `self` has the shape of `m` turned on its side, with each cell moved
    /// across the diagonal.
    pub open spec fn is_transpose_of(&self, m: &Matrix<T>) -> bool {
        &&& self.has_shape(m.n_cols as int, m.n_rows as int)
        &&& forall|i: int, j: int| 0 <= i < m.n_cols && 0 <= j < m.n_rows
                ==> #[trigger] self.cell(i, j) == m.cell(j, i)
    }

    /// The cells of row `row`, left to right, or `None` past the last row.
    pub fn get_row(&self, row: usize) -> (r: Option<Vec<T>>)
        requires
            self.wf(),
        ensures
            r.is_some() <==> row < self.n_rows,
            r.is_some() ==> r.unwrap()@.len() == self.n_cols,
            r.is_some() ==> forall|j: int| 0 <= j < self.n_cols
                ==> #[trigger] r.unwrap()@[j] == self.cell(row as int, j),
    {
        if row >= self.n_rows {
            return None;
        }
        let mut out: Vec<T> = Vec::new();
        let mut j: usize = 0;
        while j < self.n_cols
            invariant
                self.wf(),
                row < self.n_rows,
                j <= self.n_cols,
                out@.len() == j,
                forall|c: int| 0 <= c < j ==> #[trigger] out@[c] == self.cell(row as int, c),
            decreases self.n_cols - j,
        {
            proof {
                lemma_index_in_bounds(row as int, j as int, self.n_rows as int, self.n_cols as int);
            }
            out.push(self.data[row * self.n_cols + j]);
            j = j + 1;
        }
        Some(out)
    }

    /// The cells of column `col`, top to bottom, or `None` past the last
    /// column.
    pub fn get_col(&self, col: usize) -> (r: Option<Vec<T>>)
        requires
            self.wf(),
        ensures
            r.is_some() <==> col < self.n_cols,
            r.is_some() ==> r.unwrap()@.len() == self.n_rows,
            r.is_some() ==> forall|i: int| 0 <= i < self.n_rows
                ==> #[trigger] r.unwrap()@[i] == self.cell(i, col as int),
    {
        if col >= self.n_cols {
            return None;
        }
        let mut out: Vec<T> = Vec::new();
        let mut i: usize = 0;
        while i < self.n_rows
            invariant
                self.wf(),
                col < self.n_cols,
                i <= self.n_rows,
                out@.len() == i,
                forall|c: int| 0 <= c < i ==> #[trigger] out@[c] == self.cell(c, col as int),
            decreases self.n_rows - i,
        {
            proof {
                lemma_index_in_bounds(i as int, col as int, self.n_rows as int, self.n_cols as int);
            }
            out.push(self.data[i * self.n_cols + col]);
            i = i + 1;
        }
        Some(out)
    }

    /// The matrix with rows and columns exchanged.
    pub fn transpose(&self) -> (r: Matrix<T>)
        requires
            self.wf(),
        ensures
            r.is_transpose_of(self),
    {
        let rows = self.n_rows;
        let cols = self.n_cols;
        let mut data: Vec<T> = Vec::new();
        let mut i: usize = 0;
        while i < cols
            invariant
                self.wf(),
                rows == self.n_rows,
                cols == self.n_cols,
                i <= cols,
                data@.len() == i * rows,
                forall|a: int, b: int| 0 <= a < i && 0 <= b < rows
                    ==> #[trigger] at(data@, rows as int, a, b) == self.cell(b, a),
            decreases cols - i,
        {
            let mut j: usize = 0;
            while j < rows
                invariant
                    self.wf(),
                    rows == self.n_rows,
                    cols == self.n_cols,
                    i < cols,
                    j <= rows,
                    data@.len() == i * rows + j,
                    forall|a: int, b: int| 0 <= a < i && 0 <= b < rows
                        ==> #[trigger] at(data@, rows as int, a, b) == self.cell(b, a),
                    forall|b: int| 0 <= b < j ==> #[trigger] at(data@, rows as int, i as int, b) == self.cell(b, i as int),
                decreases rows - j,
            {
                proof {
                    lemma_index_in_bounds(j as int, i as int, rows as int, cols as int);
                }
                let ghost before = data@;
                data.push(self.data[j * cols + i]);
                proof {
                    assert forall|a: int, b: int| 0 <= a < i && 0 <= b < rows
                        implies #[trigger] at(data@, rows as int, a, b) == self.cell(b, a) by {
                        lemma_index_in_bounds(a, b, i as int, rows as int);
                        assert(at(data@, rows as int, a, b) == at(before, rows as int, a, b));
                    }
                    assert forall|b: int| 0 <= b < j + 1
                        implies #[trigger] at(data@, rows as int, i as int, b) == self.cell(b, i as int) by {
                        if b < j {
                            assert(at(data@, rows as int, i as int, b) == at(before, rows as int, i as int, b));
                        }
                    }
                }
                j = j + 1;
            }
            proof {
                assert((i + 1) * rows == i * rows + rows) by (nonlinear_arith);
                assert forall|a: int, b: int| 0 <= a < i + 1 && 0 <= b < rows
                    implies #[trigger] at(data@, rows as int, a, b) == self.cell(b, a) by {
                    if a == i {
                        assert(at(data@, rows as int, i as int, b) == self.cell(b, i as int));
                    }
                }
            }
            i = i + 1;
        }
        proof {
            assert(cols * rows == rows * cols) by (nonlinear_arith);
        }
        Matrix { data, n_rows: cols, n_cols: rows }
    }

    /// Exchanges rows `a` and `b`.
    pub fn swap_rows(&mut self, a: usize, b: usize)
        requires
            old(self).wf(),
            a < old(self).n_rows,
            b < old(self).n_rows,
        ensures
            rows_swapped(*old(self), *final(self), a as int, b as int),
    {
        let mut j: usize = 0;
        while j < self.n_cols
            invariant
                self.has_shape(old(self).n_rows as int, old(self).n_cols as int),
                old(self).wf(),
                a < self.n_rows,
                b < self.n_rows,
                j <= self.n_cols,
                forall|c: int| 0 <= c < j ==> #[trigger] self.cell(a as int, c) == old(self).cell(b as int, c),
                forall|c: int| 0 <= c < j ==> #[trigger] self.cell(b as int, c) == old(self).cell(a as int, c),
                forall|i: int, c: int| 0 <= i < self.n_rows && j <= c < self.n_cols
                    ==> #[trigger] self.cell(i, c) == old(self).cell(i, c),
                forall|i: int, c: int| 0 <= i < self.n_rows && 0 <= c < self.n_cols && i != a && i != b
                    ==> #[trigger] self.cell(i, c) == old(self).cell(i, c),
            decreases self.n_cols - j,
        {
            let x = self.get(a, j).unwrap();
            let y = self.get(b, j).unwrap();
            self.set(a, j, y);
            self.set(b, j, x);
            j = j + 1;
        }
    }

    /// Each cell of the result is `f` of the cells at the same place in
    /// `self` and `rhs`; `ShapeMismatch` unless the two have one shape.
    pub fn zip_with<F: Fn(T, T) -> T>(&self, rhs: &Matrix<T>, f: F) -> (r: Result<Matrix<T>, MatrixError>)
        requires
            self.wf(),
            rhs.wf(),
            forall|a: T, b: T| f.requires((a, b)),
        ensures
            r.is_err() <==> !(self.n_rows == rhs.n_rows && self.n_cols == rhs.n_cols),
            r.is_err() ==> r == Err::<Matrix<T>, MatrixError>(MatrixError::ShapeMismatch),
            r.is_ok() ==> r->Ok_0.has_shape(self.n_rows as int, self.n_cols as int),
            r.is_ok() ==> forall|i: int, j: int| 0 <= i < self.n_rows && 0 <= j < self.n_cols
                ==> f.ensures((self.cell(i, j), rhs.cell(i, j)), #[trigger] r->Ok_0.cell(i, j)),
    {
        if !self.same_size_as(rhs) {
            return Err(MatrixError::ShapeMismatch);
        }
        let n = self.data.len();
        let mut data: Vec<T> = Vec::new();
        let mut k: usize = 0;
        while k < n
            invariant
                self.wf(),
                rhs.wf(),
                self.n_rows == rhs.n_rows,
                self.n_cols == rhs.n_cols,
                n == self.data@.len(),
                k <= n,
                data@.len() == k,
                forall|a: T, b: T| f.requires((a, b)),
                forall|t: int| 0 <= t < k ==> f.ensures((self.data@[t], rhs.data@[t]), #[trigger] data@[t]),
            decreases n - k,
        {
            let v = f(self.data[k], rhs.data[k]);
            data.push(v);
            k = k + 1;
        }
        let m = Matrix { data, n_rows: self.n_rows, n_cols: self.n_cols };
        assert forall|i: int, j: int| 0 <= i < self.n_rows && 0 <= j < self.n_cols
            implies f.ensures((self.cell(i, j), rhs.cell(i, j)), #[trigger] m.cell(i, j)) by {
            lemma_index_in_bounds(i, j, self.n_rows as int, self.n_cols as int);
        }
        Ok(m)
    }

    /// Each cell of the result is `f` of the cell at the same place.
    pub fn map<F: Fn(T) -> T>(&self, f: F) -> (r: Matrix<T>)
        requires
            self.wf(),
            forall|a: T| f.requires((a,)),
        ensures
            r.has_shape(self.n_rows as int, self.n_cols as int),
            forall|i: int, j: int| 0 <= i < self.n_rows && 0 <= j < self.n_cols
                ==> f.ensures((self.cell(i, j),), #[trigger] r.cell(i, j)),
    {
        let n = self.data.len();
        let mut data: Vec<T> = Vec::new();
        let mut k: usize = 0;
        while k < n
            invariant
                self.wf(),
                n == self.data@.len(),
                k <= n,
                data@.len() == k,
                forall|a: T| f.requires((a,)),
                forall|t: int| 0 <= t < k ==> f.ensures((self.data@[t],), #[trigger] data@[t]),
            decreases n - k,
        {
            let v = f(self.data[k]);
            data.push(v);
            k = k + 1;
        }
        let m = Matrix { data, n_rows: self.n_rows, n_cols: self.n_cols };
        assert forall|i: int, j: int| 0 <= i < self.n_rows && 0 <= j < self.n_cols
            implies f.ensures((self.cell(i, j),), #[trigger] m.cell(i, j)) by {
            lemma_index_in_bounds(i, j, self.n_rows as int, self.n_cols as int);
        }
        m
    }

    /// Replaces each cell by `f` of it.
    pub fn apply_mut<F: Fn(T) -> T>(&mut self, f: F)
        requires
            old(self).wf(),
            forall|a: T| f.requires((a,)),
        ensures
            final(self).has_shape(old(self).n_rows as int, old(self).n_cols as int),
            forall|i: int, j: int| 0 <= i < old(self).n_rows && 0 <= j < old(self).n_cols
                ==> f.ensures((old(self).cell(i, j),), #[trigger] final(self).cell(i, j)),
    {
        let n = self.data.len();
        let mut k: usize = 0;
        while k < n
            invariant
                self.n_rows == old(self).n_rows,
                self.n_cols == old(self).n_cols,
                old(self).wf(),
                n == self.data@.len(),
                n == old(self).data@.len(),
                k <= n,
                forall|a: T| f.requires((a,)),
                forall|t: int| 0 <= t < k ==> f.ensures((old(self).data@[t],), #[trigger] self.data@[t]),
                forall|t: int| k <= t < n ==> #[trigger] self.data@[t] == old(self).data@[t],
            decreases n - k,
        {
            let v = f(self.data[k]);
            self.data.set(k, v);
            k = k + 1;
        }
        assert forall|i: int, j: int| 0 <= i < self.n_rows && 0 <= j < self.n_cols
            implies f.ensures((old(self).cell(i, j),), #[trigger] self.cell(i, j)) by {
            lemma_index_in_bounds(i, j, self.n_rows as int, self.n_cols as int);
        }
    }
}

/// `s` holds the running sums of the products `p` of `xs` and `ys`, taken
/// pairwise, starting from zero.
pub open spec fn accumulates<T: Scalar>(xs: Seq<T>, ys: Seq<T>, p: Seq<T>, s: Seq<T>) -> bool {
    &&& ys.len() == xs.len()
    &&& p.len() == xs.len()
    &&& s.len() == xs.len() + 1
    &&& is_zero_value(s[0])
    &&& forall|k: int| 0 <= k < xs.len() ==> is_product(xs[k], ys[k], #[trigger] p[k])
    &&& forall|k: int| 0 <= k < xs.len() ==> is_sum(s[k], p[k], #[trigger] s[k + 1])
}

/// `v` is the sum over `k` of `xs[k] * ys[k]`, added up from zero in the
/// order of `k`.
pub open spec fn is_inner_product<T: Scalar>(xs: Seq<T>, ys: Seq<T>, v: T) -> bool {
    exists|p: Seq<T>, s: Seq<T>| accumulates(xs, ys, p, s) && s.last() == v
}

impl<T: Scalar> Matrix<T> {
    /// Row `i` as a sequence.
    pub open spec fn row_seq(&self, i: int) -> Seq<T> {
        Seq::new(self.n_cols as nat, |k: int| self.cell(i, k))
    }

    /// Column `j` as a sequence.
    pub open spec fn col_seq(&self, j: int) -> Seq<T> {
        Seq::new(self.n_rows as nat, |k: int| self.cell(k, j))
    }

    /// A matrix of the given shape filled with zeros.
    pub fn new(n_rows: usize, n_cols: usize) -> (r: Self)
        requires
            n_rows * n_cols <= usize::MAX,
        ensures
            r.has_shape(n_rows as int, n_cols as int),
            forall|i: int, j: int| 0 <= i < n_rows && 0 <= j < n_cols ==> is_zero_value(#[trigger] r.cell(i, j)),
    {
        Matrix::filled(n_rows, n_cols, T::zero())
    }

    /// The elementwise sum; `ShapeMismatch` unless the shapes agree.
    pub fn plus(&self, rhs: &Matrix<T>) -> (r: Result<Matrix<T>, MatrixError>)
        requires
            self.wf(),
            rhs.wf(),
        ensures
            r.is_err() <==> !(self.n_rows == rhs.n_rows && self.n_cols == rhs.n_cols),
            r.is_err() ==> r == Err::<Matrix<T>, MatrixError>(MatrixError::ShapeMismatch),
            r.is_ok() ==> r->Ok_0.has_shape(self.n_rows as int, self.n_cols as int),
            r.is_ok() ==> forall|i: int, j: int| 0 <= i < self.n_rows && 0 <= j < self.n_cols
                ==> is_sum(self.cell(i, j), rhs.cell(i, j), #[trigger] r->Ok_0.cell(i, j)),
    {
        self.zip_with(rhs, |a: T, b: T| -> (c: T) ensures is_sum(a, b, c) { a.plus(b) })
    }

    /// The elementwise difference; `ShapeMismatch` unless the shapes agree.
    pub fn minus(&self, rhs: &Matrix<T>) -> (r: Result<Matrix<T>, MatrixError>)
        requires
            self.wf(),
            rhs.wf(),
        ensures
            r.is_err() <==> !(self.n_rows == rhs.n_rows && self.n_cols == rhs.n_cols),
            r.is_err() ==> r == Err::<Matrix<T>, MatrixError>(MatrixError::ShapeMismatch),
            r.is_ok() ==> r->Ok_0.has_shape(self.n_rows as int, self.n_cols as int),
            r.is_ok() ==> forall|i: int, j: int| 0 <= i < self.n_rows && 0 <= j < self.n_cols
                ==> is_difference(self.cell(i, j), rhs.cell(i, j), #[trigger] r->Ok_0.cell(i, j)),
    {
        self.zip_with(rhs, |a: T, b: T| -> (c: T) ensures is_difference(a, b, c) { a.minus(b) })
    }

    /// The elementwise product; `ShapeMismatch` unless the shapes agree.
    pub fn times(&self, rhs: &Matrix<T>) -> (r: Result<Matrix<T>, MatrixError>)
        requires
            self.wf(),
            rhs.wf(),
        ensures
            r.is_err() <==> !(self.n_rows == rhs.n_rows && self.n_cols == rhs.n_cols),
            r.is_err() ==> r == Err::<Matrix<T>, MatrixError>(MatrixError::ShapeMismatch),
            r.is_ok() ==> r->Ok_0.has_shape(self.n_rows as int, self.n_cols as int),
            r.is_ok() ==> forall|i: int, j: int| 0 <= i < self.n_rows && 0 <= j < self.n_cols
                ==> is_product(self.cell(i, j), rhs.cell(i, j), #[trigger] r->Ok_0.cell(i, j)),
    {
        self.zip_with(rhs, |a: T, b: T| -> (c: T) ensures is_product(a, b, c) { a.times(b) })
    }

    /// The elementwise quotient; `ShapeMismatch` unless the shapes agree.
    pub fn divided_by(&self, rhs: &Matrix<T>) -> (r: Result<Matrix<T>, MatrixError>)
        requires
            self.wf(),
            rhs.wf(),
        ensures
            r.is_err() <==> !(self.n_rows == rhs.n_rows && self.n_cols == rhs.n_cols),
            r.is_err() ==> r == Err::<Matrix<T>, MatrixError>(MatrixError::ShapeMismatch),
            r.is_ok() ==> r->Ok_0.has_shape(self.n_rows as int, self.n_cols as int),
            r.is_ok() ==> forall|i: int, j: int| 0 <= i < self.n_rows && 0 <= j < self.n_cols
                ==> is_quotient(self.cell(i, j), rhs.cell(i, j), #[trigger] r->Ok_0.cell(i, j)),
    {
        self.zip_with(rhs, |a: T, b: T| -> (c: T) ensures is_quotient(a, b, c) { a.divided_by(b) })
    }

    /// The inner product of row `i` of `self` and column `j` of `rhs`.
    fn inner_product(&self, rhs: &Matrix<T>, i: usize, j: usize) -> (v: T)
        requires
            self.wf(),
            rhs.wf(),
            self.n_cols == rhs.n_rows,
            i < self.n_rows,
            j < rhs.n_cols,
        ensures
            is_inner_product(self.row_seq(i as int), rhs.col_seq(j as int), v),
    {
        let inner = self.n_cols;
        let ghost xs = self.row_seq(i as int);
        let ghost ys = rhs.col_seq(j as int);
        let mut acc = T::zero();
        let ghost mut p: Seq<T> = Seq::empty();
        let ghost mut s: Seq<T> = seq![acc];
        let mut k: usize = 0;
        while k < inner
            invariant
                self.wf(),
                rhs.wf(),
                inner == self.n_cols,
                inner == rhs.n_rows,
                i < self.n_rows,
                j < rhs.n_cols,
                xs == self.row_seq(i as int),
                ys == rhs.col_seq(j as int),
                k <= inner,
                p.len() == k,
                s.len() == k + 1,
                is_zero_value(s[0]),
                s.last() == acc,
                forall|t: int| 0 <= t < k ==> is_product(xs[t], ys[t], #[trigger] p[t]),
                forall|t: int| 0 <= t < k ==> is_sum(s[t], p[t], #[trigger] s[t + 1]),
            decreases inner - k,
        {
            let x = self.get(i, k).unwrap();
            let y = rhs.get(k, j).unwrap();
            let prod = x.times(y);
            let next = acc.plus(prod);
            proof {
                p = p.push(prod);
                s = s.push(next);
            }
            acc = next;
            k = k + 1;
        }
        assert(accumulates(xs, ys, p, s));
        acc
    }

    /// The matrix product; `DimensionMismatch` unless `self` has as many
    /// columns as `rhs` has rows.
    pub fn dot(&self, rhs: &Matrix<T>) -> (r: Result<Matrix<T>, MatrixError>)
        requires
            self.wf(),
            rhs.wf(),
            self.n_cols == rhs.n_rows ==> self.n_rows * rhs.n_cols <= usize::MAX,
        ensures
            r.is_err() <==> self.n_cols != rhs.n_rows,
            r.is_err() ==> r == Err::<Matrix<T>, MatrixError>(MatrixError::DimensionMismatch),
            r.is_ok() ==> is_matrix_product(*self, *rhs, r->Ok_0),
    {
        if self.n_cols != rhs.n_rows {
            return Err(MatrixError::DimensionMismatch);
        }
        let rows = self.n_rows;
        let cols = rhs.n_cols;
        let mut data: Vec<T> = Vec::new();
        let mut i: usize = 0;
        while i < rows
            invariant
                self.wf(),
                rhs.wf(),
                self.n_cols == rhs.n_rows,
                rows == self.n_rows,
                cols == rhs.n_cols,
                i <= rows,
                data@.len() == i * cols,
                forall|a: int, b: int| 0 <= a < i && 0 <= b < cols
                    ==> is_inner_product(self.row_seq(a), rhs.col_seq(b), #[trigger] at(data@, cols as int, a, b)),
            decreases rows - i,
        {
            let mut j: usize = 0;
            while j < cols
                invariant
                    self.wf(),
                    rhs.wf(),
                    self.n_cols == rhs.n_rows,
                    rows == self.n_rows,
                    cols == rhs.n_cols,
                    i < rows,
                    j <= cols,
                    data@.len() == i * cols + j,
                    forall|a: int, b: int| 0 <= a < i && 0 <= b < cols
                        ==> is_inner_product(self.row_seq(a), rhs.col_seq(b), #[trigger] at(data@, cols as int, a, b)),
                    forall|b: int| 0 <= b < j
                        ==> is_inner_product(self.row_seq(i as int), rhs.col_seq(b), #[trigger] at(data@, cols as int, i as int, b)),
                decreases cols - j,
            {
                let v = self.inner_product(rhs, i, j);
                let ghost before = data@;
                data.push(v);
                proof {
                    assert forall|a: int, b: int| 0 <= a < i && 0 <= b < cols
                        implies is_inner_product(self.row_seq(a), rhs.col_seq(b), #[trigger] at(data@, cols as int, a, b)) by {
                        lemma_index_in_bounds(a, b, i as int, cols as int);
                        assert(at(data@, cols as int, a, b) == at(before, cols as int, a, b));
                    }
                    assert forall|b: int| 0 <= b < j + 1
                        implies is_inner_product(self.row_seq(i as int), rhs.col_seq(b), #[trigger] at(data@, cols as int, i as int, b)) by {
                        if b < j {
                            assert(at(data@, cols as int, i as int, b) == at(before, cols as int, i as int, b));
                        }
                    }
                }
                j = j + 1;
            }
            proof {
                assert((i + 1) * cols == i * cols + cols) by (nonlinear_arith);
                assert forall|a: int, b: int| 0 <= a < i + 1 && 0 <= b < cols
                    implies is_inner_product(self.row_seq(a), rhs.col_seq(b), #[trigger] at(data@, cols as int, a, b)) by {
                    if a == i {
                        assert(is_inner_product(self.row_seq(i as int), rhs.col_seq(b), at(data@, cols as int, i as int, b)));
                    }
                }
            }
            i = i + 1;
        }
        let r = Matrix { data, n_rows: rows, n_cols: cols };
        assert(r.has_shape(rows as int, cols as int));
        Ok(r)
    }

    /// The `n` by `2n` matrix with `self` on the left and the identity on
    /// the right.
    fn augmented(&self) -> (r: Matrix<T>)
        requires
            self.wf(),
            self.n_rows == self.n_cols,
            self.n_rows * (2 * self.n_rows) <= usize::MAX,
        ensures
            is_augmented(*self, r),
    {
        let n = self.n_rows;
        proof {
            if n > 0 {
                assert(2 * n <= n * (2 * n)) by (nonlinear_arith)
                    requires n > 0;
            }
        }
        let mut r = Matrix::new(n, 2 * n);
        let mut i: usize = 0;
        while i < n
            invariant
                self.wf(),
                n == self.n_rows,
                n == self.n_cols,
                r.has_shape(n as int, 2 * n),
                i <= n,
                forall|a: int, b: int| 0 <= a < i && 0 <= b < n ==> #[trigger] r.cell(a, b) == self.cell(a, b),
                forall|a: int, b: int| 0 <= a < i && 0 <= b < n && a == b ==> is_one_value(#[trigger] r.cell(a, n + b)),
                forall|a: int, b: int| i <= a < n && 0 <= b < 2 * n ==> is_zero_value(#[trigger] r.cell(a, b)),
                forall|a: int, b: int| 0 <= a < n && 0 <= b < n && a != b ==> is_zero_value(#[trigger] r.cell(a, n + b)),
            decreases n - i,
        {
            let mut j: usize = 0;
            while j < n
                invariant
                    self.wf(),
                    n == self.n_rows,
                    n == self.n_cols,
                    r.has_shape(n as int, 2 * n),
                    i < n,
                    j <= n,
                    forall|a: int, b: int| 0 <= a < i && 0 <= b < n ==> #[trigger] r.cell(a, b) == self.cell(a, b),
                    forall|b: int| 0 <= b < j ==> #[trigger] r.cell(i as int, b) == self.cell(i as int, b),
                    forall|a: int, b: int| 0 <= a < i && 0 <= b < n && a == b ==> is_one_value(#[trigger] r.cell(a, n + b)),
                    j > i ==> is_one_value(r.cell(i as int, n + i)),
                    forall|a: int, b: int| i < a < n && 0 <= b < 2 * n ==> is_zero_value(#[trigger] r.cell(a, b)),
                    forall|b: int| j <= b < n ==> is_zero_value(#[trigger] r.cell(i as int, b)),
                    forall|b: int| n <= b < 2 * n && (b != n + i || j <= i) ==> is_zero_value(#[trigger] r.cell(i as int, b)),
                    forall|a: int, b: int| 0 <= a < n && 0 <= b < n && a != b ==> is_zero_value(#[trigger] r.cell(a, n + b)),
                decreases n - j,
            {
                let x = self.get(i, j).unwrap();
                r.set(i, j, x);
                if i == j {
                    r.set(i, n + j, T::one());
                }
                j = j + 1;
            }
            i = i + 1;
        }
        r
    }

    /// Divides every cell of row `row` by `d`.
    fn scale_row(&mut self, row: usize, d: T)
        requires
            old(self).wf(),
            row < old(self).n_rows,
        ensures
            row_scaled(*old(self), *final(self), row as int, d),
    {
        let mut j: usize = 0;
        while j < self.n_cols
            invariant
                self.has_shape(old(self).n_rows as int, old(self).n_cols as int),
                old(self).wf(),
                row < self.n_rows,
                j <= self.n_cols,
                forall|b: int| 0 <= b < j
                    ==> is_quotient(old(self).cell(row as int, b), d, #[trigger] self.cell(row as int, b)),
                forall|b: int| j <= b < self.n_cols ==> #[trigger] self.cell(row as int, b) == old(self).cell(row as int, b),
                forall|a: int, b: int| 0 <= a < self.n_rows && 0 <= b < self.n_cols && a != row
                    ==> #[trigger] self.cell(a, b) == old(self).cell(a, b),
            decreases self.n_cols - j,
        {
            let x = self.get(row, j).unwrap();
            self.set(row, j, x.divided_by(d));
            j = j + 1;
        }
    }

    /// Takes `factor` times row `source` from row `target`.
    fn subtract_row_multiple(&mut self, target: usize, source: usize, factor: T)
        requires
            old(self).wf(),
            target < old(self).n_rows,
            source < old(self).n_rows,
            target != source,
        ensures
            row_reduced(*old(self), *final(self), target as int, source as int, factor),
    {
        let mut j: usize = 0;
        while j < self.n_cols
            invariant
                self.has_shape(old(self).n_rows as int, old(self).n_cols as int),
                old(self).wf(),
                target < self.n_rows,
                source < self.n_rows,
                target != source,
                j <= self.n_cols,
                forall|b: int| 0 <= b < j
                    ==> is_reduced(old(self).cell(target as int, b), factor, old(self).cell(source as int, b),
                            #[trigger] self.cell(target as int, b)),
                forall|b: int| j <= b < self.n_cols ==> #[trigger] self.cell(target as int, b) == old(self).cell(target as int, b),
                forall|a: int, b: int| 0 <= a < self.n_rows && 0 <= b < self.n_cols && a != target
                    ==> #[trigger] self.cell(a, b) == old(self).cell(a, b),
            decreases self.n_cols - j,
        {
            let x = self.get(target, j).unwrap();
            let y = self.get(source, j).unwrap();
            let p = factor.times(y);
            let v = x.minus(p);
            assert(is_product(factor, y, p) && is_difference(x, p, v));
            self.set(target, j, v);
            j = j + 1;
        }
    }

    /// The row, from `col` down, whose cell in column `col` has the
    /// largest magnitude; the first such row on a tie.
    fn pivot_row(&self, col: usize) -> (p: usize)
        requires
            self.wf(),
            col < self.n_rows,
            col < self.n_cols,
        ensures
            col <= p < self.n_rows,
            forall|r: int| p < r < self.n_rows ==> #[trigger] not_larger(*self, r, p as int, col as int),
    {
        let mut p = col;
        let mut row = col + 1;
        while row < self.n_rows
            invariant
                self.wf(),
                col < self.n_cols,
                col <= p < self.n_rows,
                col < row <= self.n_rows,
                p < row,
                forall|r: int| p < r < row ==> #[trigger] not_larger(*self, r, p as int, col as int),
            decreases self.n_rows - row,
        {
            let x = self.get(row, col).unwrap();
            let y = self.get(p, col).unwrap();
            let mx = x.magnitude();
            let my = y.magnitude();
            if mx.exceeds(my) {
                p = row;
            } else {
                assert(is_magnitude(x, mx) && is_magnitude(y, my) && compares_above(mx, my, false));
                assert(not_larger(*self, row as int, p as int, col as int));
            }
            row = row + 1;
        }
        p
    }

    /// The columns from `n` on of an `n` by `2n` matrix.
    fn right_half(&self) -> (r: Matrix<T>)
        requires
            self.wf(),
            self.n_cols == 2 * self.n_rows,
        ensures
            is_right_half(*self, r),
    {
        let n = self.n_rows;
        proof {
            lemma_mul_mono(n as int, n as int, 2 * n);
        }
        let mut r = Matrix::new(n, n);
        let mut i: usize = 0;
        while i < n
            invariant
                self.wf(),
                n == self.n_rows,
                self.n_cols == 2 * n,
                r.has_shape(n as int, n as int),
                i <= n,
                forall|a: int, b: int| 0 <= a < i && 0 <= b < n ==> #[trigger] r.cell(a, b) == self.cell(a, n + b),
            decreases n - i,
        {
            let mut j: usize = 0;
            while j < n
                invariant
                    self.wf(),
                    n == self.n_rows,
                    self.n_cols == 2 * n,
                    r.has_shape(n as int, n as int),
                    i < n,
                    j <= n,
                    forall|a: int, b: int| 0 <= a < i && 0 <= b < n ==> #[trigger] r.cell(a, b) == self.cell(a, n + b),
                    forall|b: int| 0 <= b < j ==> #[trigger] r.cell(i as int, b) == self.cell(i as int, n + b),
                decreases n - j,
            {
                let x = self.get(i, n + j).unwrap();
                r.set(i, j, x);
                j = j + 1;
            }
            i = i + 1;
        }
        r
    }

    /// The inverse, by Gauss-Jordan elimination with partial pivoting on
    /// `[self | I]`. `NotSquare` unless `self` is square; `Singular` when a
    /// pivot tests zero after the row of largest magnitude was swapped up.
    pub fn invert(&self) -> (r: Result<Matrix<T>, MatrixError>)
        requires
            self.wf(),
            self.n_rows * (2 * self.n_cols) <= usize::MAX,
        ensures
            self.n_rows != self.n_cols ==> r == Err::<Matrix<T>, MatrixError>(MatrixError::NotSquare),
            self.n_rows == self.n_cols ==> (r.is_ok() || r == Err::<Matrix<T>, MatrixError>(MatrixError::Singular)),
            self.n_rows == self.n_cols && self.n_rows == 0 ==> r.is_ok(),
            r.is_ok() ==> r->Ok_0.has_shape(self.n_rows as int, self.n_rows as int),
            r.is_ok() ==> is_gauss_jordan_inverse(*self, r->Ok_0),
            r == Err::<Matrix<T>, MatrixError>(MatrixError::Singular) ==> meets_zero_pivot(*self),
    {
        if !self.is_square() {
            return Err(MatrixError::NotSquare);
        }
        let n = self.n_rows;
        let mut aug = self.augmented();
        let ghost mut steps: Seq<Matrix<T>> = seq![aug];
        let mut col: usize = 0;
        while col < n
            invariant
                aug.has_shape(n as int, 2 * n),
                n == self.n_rows,
                n == self.n_cols,
                col <= n,
                steps.len() == col + 1,
                elimination_prefix(*self, steps),
                steps.last() == aug,
            decreases n - col,
        {
            let p = aug.pivot_row(col);
            let ghost before = aug;
            aug.swap_rows(col, p);
            let ghost swapped = aug;
            let pivot = aug.get(col, col).unwrap();
            if pivot.is_zero() {
                assert(elimination_prefix(*self, steps) && rows_swapped(steps.last(), swapped, steps.len() - 1, p as int));
                return Err(MatrixError::Singular);
            }
            aug.scale_row(col, pivot);
            let ghost mut states: Seq<Matrix<T>> = seq![aug];
            let mut i: usize = 0;
            while i < n
                invariant
                    aug.has_shape(n as int, 2 * n),
                    col < n,
                    i <= n,
                    states.len() == i + 1,
                    states[0].n_rows == n,
                    row_scaled(swapped, states[0], col as int, swapped.cell(col as int, col as int)),
                    states.last() == aug,
                    forall|k: int| 0 <= k < i ==> #[trigger] clear_step(states[k], states[k + 1], k, col as int),
                decreases n - i,
            {
                if i != col {
                    let factor = aug.get(i, col).unwrap();
                    aug.subtract_row_multiple(i, col, factor);
                }
                proof {
                    let prev = states;
                    states = states.push(aug);
                    assert(clear_step(states[i as int], states[i + 1], i as int, col as int));
                    assert forall|k: int| 0 <= k < i + 1 implies #[trigger] clear_step(states[k], states[k + 1], k, col as int) by {
                        if k < i {
                            assert(states[k] == prev[k] && states[k + 1] == prev[k + 1]);
                        }
                    }
                }
                i = i + 1;
            }
            proof {
                assert(column_cleared(states, col as int));
                assert(rows_swapped(before, swapped, col as int, p as int));
                assert(is_pivot_step(before, aug, col as int));
                let prev = steps;
                steps = steps.push(aug);
                assert forall|c: int| 0 <= c < steps.len() - 1 implies #[trigger] is_pivot_step(steps[c], steps[c + 1], c) by {
                    if c < col {
                        assert(steps[c] == prev[c] && steps[c + 1] == prev[c + 1]);
                    }
                }
                assert(steps[0] == prev[0]);
            }
            col = col + 1;
        }
        let inv = aug.right_half();
        assert(elimination_prefix(*self, steps) && steps.len() == n + 1 && is_right_half(steps.last(), inv));
        Ok(inv)
    }

    /// `s` added to every cell.
    pub fn plus_scalar(&self, s: T) -> (r: Matrix<T>)
        requires
            self.wf(),
        ensures
            r.has_shape(self.n_rows as int, self.n_cols as int),
            forall|i: int, j: int| 0 <= i < self.n_rows && 0 <= j < self.n_cols
                ==> is_sum(self.cell(i, j), s, #[trigger] r.cell(i, j)),
    {
        self.map(|a: T| -> (c: T) ensures is_sum(a, s, c) { a.plus(s) })
    }

    /// `s` taken from every cell.
    pub fn minus_scalar(&self, s: T) -> (r: Matrix<T>)
        requires
            self.wf(),
        ensures
            r.has_shape(self.n_rows as int, self.n_cols as int),
            forall|i: int, j: int| 0 <= i < self.n_rows && 0 <= j < self.n_cols
                ==> is_difference(self.cell(i, j), s, #[trigger] r.cell(i, j)),
    {
        self.map(|a: T| -> (c: T) ensures is_difference(a, s, c) { a.minus(s) })
    }

    /// Every cell multiplied by `s`.
    pub fn times_scalar(&self, s: T) -> (r: Matrix<T>)
        requires
            self.wf(),
        ensures
            r.has_shape(self.n_rows as int, self.n_cols as int),
            forall|i: int, j: int| 0 <= i < self.n_rows && 0 <= j < self.n_cols
                ==> is_product(self.cell(i, j), s, #[trigger] r.cell(i, j)),
    {
        self.map(|a: T| -> (c: T) ensures is_product(a, s, c) { a.times(s) })
    }

    /// Every cell divided by `s`.
    pub fn divided_by_scalar(&self, s: T) -> (r: Matrix<T>)
        requires
            self.wf(),
        ensures
            is_divided_by(*self, s, r),
    {
        self.map(|a: T| -> (c: T) ensures is_quotient(a, s, c) { a.divided_by(s) })
    }
}

/// `r` is the matrix product of `a` and `b`: each cell the inner product
/// of a row of `a` and a column of `b`.
pub open spec fn is_matrix_product<T: Scalar>(a: Matrix<T>, b: Matrix<T>, r: Matrix<T>) -> bool {
    &&& a.n_cols == b.n_rows
    &&& r.has_shape(a.n_rows as int, b.n_cols as int)
    &&& forall|i: int, j: int| 0 <= i < a.n_rows && 0 <= j < b.n_cols
            ==> is_inner_product(a.row_seq(i), b.col_seq(j), #[trigger] r.cell(i, j))
}

/// `r` is `m` with every cell divided by `s`.
pub open spec fn is_divided_by<T: Scalar>(m: Matrix<T>, s: T, r: Matrix<T>) -> bool {
    &&& r.has_shape(m.n_rows as int, m.n_cols as int)
    &&& forall|i: int, j: int| 0 <= i < m.n_rows && 0 <= j < m.n_cols
            ==> is_quotient(m.cell(i, j), s, #[trigger] r.cell(i, j))
}

/// The cell of row `r` in column `c` of `m` is not larger in magnitude
/// than that of row `p`: comparing their magnitudes did not find it so.
pub open spec fn not_larger<T: Scalar>(m: Matrix<T>, r: int, p: int, c: int) -> bool {
    exists|mr: T, mp: T| #![trigger is_magnitude(m.cell(r, c), mr), is_magnitude(m.cell(p, c), mp)]
        is_magnitude(m.cell(r, c), mr) && is_magnitude(m.cell(p, c), mp) && compares_above(mr, mp, false)
}

/// `after` is `before` with rows `a` and `b` exchanged.
pub open spec fn rows_swapped<T: Copy>(before: Matrix<T>, after: Matrix<T>, a: int, b: int) -> bool {
    &&& after.has_shape(before.n_rows as int, before.n_cols as int)
    &&& forall|j: int| 0 <= j < before.n_cols ==> #[trigger] after.cell(a, j) == before.cell(b, j)
    &&& forall|j: int| 0 <= j < before.n_cols ==> #[trigger] after.cell(b, j) == before.cell(a, j)
    &&& forall|i: int, j: int| 0 <= i < before.n_rows && 0 <= j < before.n_cols && i != a && i != b
            ==> #[trigger] after.cell(i, j) == before.cell(i, j)
}

/// `after` is `before` with every cell of row `row` divided by `d`.
pub open spec fn row_scaled<T: Scalar>(before: Matrix<T>, after: Matrix<T>, row: int, d: T) -> bool {
    &&& after.has_shape(before.n_rows as int, before.n_cols as int)
    &&& forall|j: int| 0 <= j < before.n_cols ==> is_quotient(before.cell(row, j), d, #[trigger] after.cell(row, j))
    &&& forall|i: int, j: int| 0 <= i < before.n_rows && 0 <= j < before.n_cols && i != row
            ==> #[trigger] after.cell(i, j) == before.cell(i, j)
}

/// `after` is `before` with `factor` times row `source` taken from row
/// `target`.
pub open spec fn row_reduced<T: Scalar>(before: Matrix<T>, after: Matrix<T>, target: int, source: int, factor: T) -> bool {
    &&& after.has_shape(before.n_rows as int, before.n_cols as int)
    &&& forall|j: int| 0 <= j < before.n_cols
            ==> is_reduced(before.cell(target, j), factor, before.cell(source, j), #[trigger] after.cell(target, j))
    &&& forall|i: int, j: int| 0 <= i < before.n_rows && 0 <= j < before.n_cols && i != target
            ==> #[trigger] after.cell(i, j) == before.cell(i, j)
}

/// `aug` is the square matrix `m` with the identity put to its right.
pub open spec fn is_augmented<T: Scalar>(m: Matrix<T>, aug: Matrix<T>) -> bool {
    &&& aug.has_shape(m.n_rows as int, 2 * m.n_rows)
    &&& forall|i: int, j: int| 0 <= i < m.n_rows && 0 <= j < m.n_rows ==> #[trigger] aug.cell(i, j) == m.cell(i, j)
    &&& forall|i: int, j: int| 0 <= i < m.n_rows && 0 <= j < m.n_rows && i == j
            ==> is_one_value(#[trigger] aug.cell(i, m.n_rows + j))
    &&& forall|i: int, j: int| 0 <= i < m.n_rows && 0 <= j < m.n_rows && i != j
            ==> is_zero_value(#[trigger] aug.cell(i, m.n_rows + j))
}

/// `r` is the right half, columns `n` onward, of the `n` by `2n` matrix
/// `aug`.
pub open spec fn is_right_half<T: Copy>(aug: Matrix<T>, r: Matrix<T>) -> bool {
    &&& r.has_shape(aug.n_rows as int, aug.n_rows as int)
    &&& forall|i: int, j: int| 0 <= i < aug.n_rows && 0 <= j < aug.n_rows
            ==> #[trigger] r.cell(i, j) == aug.cell(i, aug.n_rows + j)
}

/// Row `i` of `after` has column `c` eliminated from `before` with the
/// pivot row `c`; the pivot row itself is left as it is.
pub open spec fn clear_step<T: Scalar>(before: Matrix<T>, after: Matrix<T>, i: int, c: int) -> bool {
    if i == c {
        after == before
    } else {
        row_reduced(before, after, i, c, before.cell(i, c))
    }
}

/// `states` eliminates column `c` from every row but the pivot row, one
/// row at a time from the top.
pub open spec fn column_cleared<T: Scalar>(states: Seq<Matrix<T>>, c: int) -> bool {
    &&& states.len() == states[0].n_rows + 1
    &&& forall|i: int| 0 <= i < states[0].n_rows ==> #[trigger] clear_step(states[i], states[i + 1], i, c)
}

/// `after` is `before` after the Gauss-Jordan step on column `c`: a row
/// `p` from `c` down, beaten in magnitude in column `c` by no row below it,
/// is swapped into place, its pivot tests nonzero, the pivot row is divided
/// by the pivot, and the column is eliminated from the other rows.
pub open spec fn is_pivot_step<T: Scalar>(before: Matrix<T>, after: Matrix<T>, c: int) -> bool {
    exists|p: int, swapped: Matrix<T>, states: Seq<Matrix<T>>|
        #![trigger rows_swapped(before, swapped, c, p), column_cleared(states, c)]
    {
        &&& c <= p < before.n_rows
        &&& forall|r: int| p < r < before.n_rows ==> #[trigger] not_larger(before, r, p, c)
        &&& rows_swapped(before, swapped, c, p)
        &&& call_ensures(T::is_zero, (swapped.cell(c, c),), false)
        &&& row_scaled(swapped, states[0], c, swapped.cell(c, c))
        &&& column_cleared(states, c)
        &&& states.last() == after
    }
}

/// `steps` starts from `m` with the identity to its right and takes one
/// Gauss-Jordan step per column.
pub open spec fn elimination_prefix<T: Scalar>(m: Matrix<T>, steps: Seq<Matrix<T>>) -> bool {
    &&& 1 <= steps.len() <= m.n_rows + 1
    &&& is_augmented(m, steps[0])
    &&& forall|c: int| 0 <= c < steps.len() - 1 ==> #[trigger] is_pivot_step(steps[c], steps[c + 1], c)
}

/// `inv` is what Gauss-Jordan elimination with row exchanges yields for
/// `m`: the right half once every column has been through its step.
pub open spec fn is_gauss_jordan_inverse<T: Scalar>(m: Matrix<T>, inv: Matrix<T>) -> bool {
    exists|steps: Seq<Matrix<T>>| #[trigger] elimination_prefix(m, steps)
        && steps.len() == m.n_rows + 1 && is_right_half(steps.last(), inv)
}

/// Gauss-Jordan elimination on `m` reaches a column whose pivot, after the
/// row chosen as in `is_pivot_step` is swapped into place, tests zero.
pub open spec fn meets_zero_pivot<T: Scalar>(m: Matrix<T>) -> bool {
    exists|steps: Seq<Matrix<T>>, p: int, swapped: Matrix<T>|
        #![trigger elimination_prefix(m, steps), rows_swapped(steps.last(), swapped, steps.len() - 1, p)]
    {
        &&& elimination_prefix(m, steps)
        &&& steps.len() - 1 <= p < m.n_rows
        &&& forall|r: int| p < r < m.n_rows ==> #[trigger] not_larger(steps.last(), r, p, steps.len() - 1)
        &&& rows_swapped(steps.last(), swapped, steps.len() - 1, p)
        &&& call_ensures(T::is_zero, (swapped.cell(steps.len() - 1, steps.len() - 1),), true)
    }
}

/// `r` is `x` less `factor` times `y`.
pub open spec fn is_reduced<T: Scalar>(x: T, factor: T, y: T, r: T) -> bool {
    exists|p: T| is_product(factor, y, p) && is_difference(x, p, r)
}

/// Transposing twice gives back the matrix one started from: same shape,
/// same cells in the same order.
pub proof fn lemma_transpose_involution<T: Copy>(m: Matrix<T>, t: Matrix<T>, tt: Matrix<T>)
    requires
        m.wf(),
        t.is_transpose_of(&m),
        tt.is_transpose_of(&t),
    ensures
        tt.n_rows == m.n_rows,
        tt.n_cols == m.n_cols,
        tt.data@ == m.data@,
{
    let rows = m.n_rows as int;
    let cols = m.n_cols as int;
    assert forall|k: int| 0 <= k < m.data@.len() implies #[trigger] tt.data@[k] == m.data@[k] by {
        if cols == 0 {
            assert(rows * cols == 0) by (nonlinear_arith)
                requires cols == 0;
        }
        assert(cols > 0);
        lemma_fundamental_div_mod(k, cols);
        lemma_mod_pos_bound(k, cols);
        lemma_div_pos_is_pos(k, cols);
        let i = k / cols;
        let j = k % cols;
        if i >= rows {
            assert(rows * cols <= cols * i) by (nonlinear_arith)
                requires i >= rows, cols > 0;
        }
        assert(k == i * cols + j) by (nonlinear_arith)
            requires k == cols * i + j;
        assert(tt.cell(i, j) == t.cell(j, i));
        assert(t.cell(j, i) == m.cell(i, j));
    }
    assert(tt.data@ =~= m.data@);
}

/// A product grows with its right factor.
pub proof fn lemma_mul_mono(a: int, b: int, c: int)
    requires
        0 <= a,
        0 <= b <= c,
    ensures
        a * b <= a * c,
{
    assert(a * b <= a * c) by (nonlinear_arith)
        requires 0 <= a, 0 <= b <= c;
}

/// A cell's position in row-major storage lies inside it.
pub proof fn lemma_index_in_bounds(row: int, col: int, rows: int, cols: int)
    requires
        0 <= row < rows,
        0 <= col < cols,
    ensures
        0 <= row * cols + col < rows * cols,
        row * cols + col < (row + 1) * cols,
        (row + 1) * cols <= rows * cols,
{
    assert(row * cols + col < rows * cols) by (nonlinear_arith)
        requires 0 <= row < rows, 0 <= col < cols;
    assert(0 <= row * cols) by (nonlinear_arith)
        requires 0 <= row, 0 <= cols;
    assert((row + 1) * cols <= rows * cols) by (nonlinear_arith)
        requires 0 <= row < rows, 0 <= cols;
    assert((row + 1) * cols == row * cols + cols) by (nonlinear_arith);
}

/// Distinct cells have distinct positions in row-major storage.
pub proof fn lemma_index_injective(r1: int, c1: int, r2: int, c2: int, cols: int)
    requires
        0 <= r1,
        0 <= r2,
        0 <= c1 < cols,
        0 <= c2 < cols,
        r1 * cols + c1 == r2 * cols + c2,
    ensures
        r1 == r2,
        c1 == c2,
{
    if r1 < r2 {
        assert(r1 * cols + cols <= r2 * cols) by (nonlinear_arith)
            requires r1 < r2, 0 <= cols;
    } else if r2 < r1 {
        assert(r2 * cols + cols <= r1 * cols) by (nonlinear_arith)
            requires r2 < r1, 0 <= cols;
    }
}

} // verus!
