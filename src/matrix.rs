//! Dense row-major matrices of scalars.
use crate::ieee::ZERO_BITS;
use crate::linnum::{
    add_ok, add_view, div_ok, div_view, mul_ok, mul_view, sub_ok, sub_view, LinNum, NumView,
};
use vstd::arithmetic::div_mod::{lemma_fundamental_div_mod, lemma_fundamental_div_mod_converse};
use vstd::prelude::*;

verus! {

/// The one error of matrix operations: the shapes do not fit together.
#[derive(PartialEq, Eq, Structural, Clone, Copy, Debug)]
pub enum MatrixError {
    DimensionMismatch,
}

/// What a matrix holds: its shape and its cells, row after row.
pub struct MatrixView {
    pub rows: nat,
    pub cols: nat,
    pub cells: Seq<LinNum>,
}

impl MatrixView {
    /// At least one row and one column, and one cell for each position.
    pub open spec fn wf(self) -> bool {
        &&& self.rows >= 1
        &&& self.cols >= 1
        &&& self.cells.len() == self.rows * self.cols
        &&& self.rows * self.cols <= usize::MAX
    }

    /// The cell in row `i` and column `j`.
    pub open spec fn entry(self, i: int, j: int) -> LinNum {
        self.cells[i * self.cols + j]
    }

    /// Whether two matrices have the same shape.
    pub open spec fn same_shape(self, other: MatrixView) -> bool {
        self.rows == other.rows && self.cols == other.cols
    }
}

/// The transpose: row `i` and column `j` of the result hold row `j` and
/// column `i` of `m`.
pub open spec fn transpose_view(m: MatrixView) -> MatrixView {
    MatrixView {
        rows: m.cols,
        cols: m.rows,
        cells: Seq::new(m.rows * m.cols, |t: int| m.entry(t % m.rows as int, t / m.rows as int)),
    }
}

/// Every pair of cells in the same place can be added without leaving `i128`.
pub open spec fn cells_add_ok(a: MatrixView, b: MatrixView) -> bool {
    forall|t: int| 0 <= t < a.cells.len() ==> add_ok(#[trigger] a.cells[t]@, b.cells[t]@)
}

/// Every pair of cells in the same place can be subtracted without leaving `i128`.
pub open spec fn cells_sub_ok(a: MatrixView, b: MatrixView) -> bool {
    forall|t: int| 0 <= t < a.cells.len() ==> sub_ok(#[trigger] a.cells[t]@, b.cells[t]@)
}

/// Every cell can be multiplied by `s` without leaving `i128`.
pub open spec fn cells_mul_ok(a: MatrixView, s: NumView) -> bool {
    forall|t: int| 0 <= t < a.cells.len() ==> mul_ok(#[trigger] a.cells[t]@, s)
}

/// Every cell can be divided by `s`: never by a zero fraction, and without
/// leaving `i128`.
pub open spec fn cells_div_ok(a: MatrixView, s: NumView) -> bool {
    forall|t: int| 0 <= t < a.cells.len() ==> div_ok(#[trigger] a.cells[t]@, s)
}

/// `r` is the elementwise sum of `a` and `b`.
pub open spec fn is_sum(r: MatrixView, a: MatrixView, b: MatrixView) -> bool {
    &&& r.rows == a.rows
    &&& r.cols == a.cols
    &&& r.cells.len() == a.cells.len()
    &&& forall|t: int|
        0 <= t < r.cells.len() ==> (#[trigger] r.cells[t])@ == add_view(a.cells[t]@, b.cells[t]@)
}

/// `r` is the elementwise difference of `a` and `b`.
pub open spec fn is_difference(r: MatrixView, a: MatrixView, b: MatrixView) -> bool {
    &&& r.rows == a.rows
    &&& r.cols == a.cols
    &&& r.cells.len() == a.cells.len()
    &&& forall|t: int|
        0 <= t < r.cells.len() ==> (#[trigger] r.cells[t])@ == sub_view(a.cells[t]@, b.cells[t]@)
}

/// `r` is `a` with every cell multiplied by `s`.
pub open spec fn is_scaled(r: MatrixView, a: MatrixView, s: NumView) -> bool {
    &&& r.rows == a.rows
    &&& r.cols == a.cols
    &&& r.cells.len() == a.cells.len()
    &&& forall|t: int| 0 <= t < r.cells.len() ==> (#[trigger] r.cells[t])@ == mul_view(a.cells[t]@, s)
}

/// `r` is `a` with every cell divided by `s`.
pub open spec fn is_divided(r: MatrixView, a: MatrixView, s: NumView) -> bool {
    &&& r.rows == a.rows
    &&& r.cols == a.cols
    &&& r.cells.len() == a.cells.len()
    &&& forall|t: int| 0 <= t < r.cells.len() ==> (#[trigger] r.cells[t])@ == div_view(a.cells[t]@, s)
}

/// The sum of the first `k` products of row `i` of `a` with column `j` of
/// `b`, accumulated from a real zero.
pub open spec fn dot_view(a: MatrixView, b: MatrixView, i: int, j: int, k: int) -> NumView
    decreases k,
{
    if k <= 0 {
        NumView::Real(ZERO_BITS)
    } else {
        add_view(dot_view(a, b, i, j, k - 1), mul_view(a.entry(i, k - 1)@, b.entry(k - 1, j)@))
    }
}

/// Every product of a cell of `a` with a cell of `b` that a matrix product
/// forms stays in `i128`.
pub open spec fn products_ok(a: MatrixView, b: MatrixView) -> bool {
    forall|i: int, k: int, j: int|
        0 <= i < a.rows && 0 <= k < a.cols && 0 <= j < b.cols ==> mul_ok(
            #[trigger] a.entry(i, k)@,
            #[trigger] b.entry(k, j)@,
        )
}

/// `r` is the matrix product of `a` and `b`.
pub open spec fn is_product(r: MatrixView, a: MatrixView, b: MatrixView) -> bool {
    &&& r.rows == a.rows
    &&& r.cols == b.cols
    &&& forall|i: int, j: int|
        0 <= i < r.rows && 0 <= j < r.cols ==> (#[trigger] r.entry(i, j))@ == dot_view(
            a,
            b,
            i,
            j,
            a.cols as int,
        )
}

/// The matrix left when row 0 and column `c` of a square matrix are deleted.
pub open spec fn minor_view(m: MatrixView, c: int) -> MatrixView {
    let k = m.cols as int - 1;
    MatrixView {
        rows: (m.rows - 1) as nat,
        cols: k as nat,
        cells: Seq::new(
            (k * k) as nat,
            |t: int|
                m.entry(
                    t / k + 1,
                    if t % k < c {
                        t % k
                    } else {
                        t % k + 1
                    },
                ),
        ),
    }
}

/// The sign of the cofactor of column `c` in the first row: `1` or `-1`, as
/// fractions.
pub open spec fn sign_view(c: int) -> NumView {
    if c % 2 == 0 {
        NumView::Rational(1, 1)
    } else {
        NumView::Rational(-1, 1)
    }
}

/// The determinant of a square matrix by cofactor expansion along the first
/// row; the 2 by 2 case is `a * d - b * c`.
pub open spec fn det_view(m: MatrixView) -> NumView
    decreases m.rows, m.cols + 2,
{
    if m.rows <= 1 {
        m.entry(0, 0)@
    } else if m.rows == 2 {
        sub_view(mul_view(m.entry(0, 0)@, m.entry(1, 1)@), mul_view(m.entry(0, 1)@, m.entry(1, 0)@))
    } else {
        cofactor_sum(m, m.cols as int)
    }
}

/// The cofactor terms of columns `0..k` of the first row, added left to
/// right to the fraction zero.
pub open spec fn cofactor_sum(m: MatrixView, k: int) -> NumView
    decreases m.rows, k + 1,
{
    if k <= 0 || m.rows < 2 || k > m.cols {
        NumView::Rational(0, 1)
    } else {
        add_view(cofactor_sum(m, k - 1), cofactor_term(m, k - 1))
    }
}

/// The cofactor term of column `c`: the cell, times the minor's determinant,
/// times the sign.
pub open spec fn cofactor_term(m: MatrixView, c: int) -> NumView
    decreases m.rows, c + 1,
{
    if m.rows < 2 || c < 0 || c >= m.cols {
        NumView::Rational(0, 1)
    } else {
        mul_view(mul_view(m.entry(0, c)@, det_view(minor_view(m, c))), sign_view(c))
    }
}

/// Every exact step of the determinant stays in `i128`.
pub open spec fn det_ok(m: MatrixView) -> bool
    decreases m.rows, m.cols + 3,
{
    if m.rows <= 1 {
        true
    } else if m.rows == 2 {
        &&& mul_ok(m.entry(0, 0)@, m.entry(1, 1)@)
        &&& mul_ok(m.entry(0, 1)@, m.entry(1, 0)@)
        &&& sub_ok(
            mul_view(m.entry(0, 0)@, m.entry(1, 1)@),
            mul_view(m.entry(0, 1)@, m.entry(1, 0)@),
        )
    } else {
        cofactor_ok(m, m.cols as int)
    }
}

/// Every exact step of the cofactor terms of columns `0..k` stays in `i128`.
pub open spec fn cofactor_ok(m: MatrixView, k: int) -> bool
    decreases m.rows, k + 2,
{
    if k <= 0 || m.rows < 2 || k > m.cols {
        true
    } else {
        let c = k - 1;
        let minor = minor_view(m, c);
        &&& cofactor_ok(m, c)
        &&& det_ok(minor)
        &&& mul_ok(m.entry(0, c)@, det_view(minor))
        &&& mul_ok(mul_view(m.entry(0, c)@, det_view(minor)), sign_view(c))
        &&& add_ok(cofactor_sum(m, c), cofactor_term(m, c))
    }
}

/// A dense matrix of scalars, stored row after row.
#[derive(PartialEq, Debug)]
pub struct LinMatrix {
    rows: usize,
    cols: usize,
    data: Vec<LinNum>,
}

impl View for LinMatrix {
    type V = MatrixView;

    closed spec fn view(&self) -> MatrixView {
        MatrixView { rows: self.rows as nat, cols: self.cols as nat, cells: self.data@ }
    }
}

/// The flat index `i * cols + j` gives back row `i` and column `j`.
proof fn lemma_flat_index(i: int, j: int, cols: int)
    requires
        0 <= i,
        0 <= j < cols,
    ensures
        (i * cols + j) / cols == i,
        (i * cols + j) % cols == j,
{
    lemma_fundamental_div_mod_converse(i * cols + j, cols, i, j);
}

/// A position inside a `rows` by `cols` grid has a flat index inside it.
proof fn lemma_flat_bound(i: int, j: int, rows: int, cols: int)
    requires
        0 <= i < rows,
        0 <= j < cols,
    ensures
        0 <= i * cols + j < rows * cols,
        0 <= i * cols,
{
    assert(0 <= i * cols + j < rows * cols) by (nonlinear_arith)
        requires
            0 <= i < rows,
            0 <= j < cols,
    ;
    assert(0 <= i * cols) by (nonlinear_arith)
        requires
            0 <= i,
            0 <= cols,
    ;
}

/// Finishing row `i` reaches the start of row `i + 1`.
proof fn lemma_next_row(i: int, cols: int)
    ensures
        i * cols + cols == (i + 1) * cols,
{
    assert(i * cols + cols == (i + 1) * cols) by (nonlinear_arith);
}

impl LinMatrix {
    #[verifier::type_invariant]
    spec fn inv(self) -> bool {
        &&& self.rows >= 1
        &&& self.cols >= 1
        &&& self.data@.len() == self.rows * self.cols
        &&& self.rows * self.cols <= usize::MAX
    }

    /// A `rows` by `cols` matrix of real zeros.
    pub fn new(rows: usize, cols: usize) -> (r: LinMatrix)
        requires
            rows >= 1,
            cols >= 1,
            rows * cols <= usize::MAX,
        ensures
            r@.wf(),
            r@.rows == rows,
            r@.cols == cols,
            forall|t: int| 0 <= t < r@.cells.len() ==> (#[trigger] r@.cells[t])@ == NumView::Real(
                ZERO_BITS,
            ),
    {
        let n = rows * cols;
        let mut data: Vec<LinNum> = Vec::new();
        let mut t: usize = 0;
        while t < n
            invariant
                t <= n,
                data@.len() == t,
                forall|u: int| 0 <= u < t ==> (#[trigger] data@[u])@ == NumView::Real(ZERO_BITS),
            decreases n - t,
        {
            data.push(LinNum::new_real(ZERO_BITS));
            t = t + 1;
        }
        LinMatrix { rows, cols, data }
    }

    /// The matrix whose rows are the given rows; they must be non-empty, all
    /// of one length.
    pub fn from(data: &[&[LinNum]]) -> (r: LinMatrix)
        requires
            data@.len() >= 1,
            data@[0]@.len() >= 1,
            forall|i: int| 0 <= i < data@.len() ==> (#[trigger] data@[i])@.len() == data@[0]@.len(),
            data@.len() * data@[0]@.len() <= usize::MAX,
        ensures
            r@.wf(),
            r@.rows == data@.len(),
            r@.cols == data@[0]@.len(),
            forall|i: int, j: int|
                0 <= i < r@.rows && 0 <= j < r@.cols ==> #[trigger] r@.entry(i, j) == data@[i]@[j],
    {
        let rows = data.len();
        let cols = data[0].len();
        let mut cells: Vec<LinNum> = Vec::new();
        let mut i: usize = 0;
        while i < rows
            invariant
                rows == data@.len(),
                cols == data@[0]@.len(),
                cols >= 1,
                forall|x: int| 0 <= x < data@.len() ==> (#[trigger] data@[x])@.len() == cols,
                rows * cols <= usize::MAX,
                i <= rows,
                cells@.len() == i * cols,
                forall|t: int|
                    0 <= t < cells@.len() ==> #[trigger] cells@[t] == data@[t / cols as int]@[t
                        % cols as int],
            decreases rows - i,
        {
            let row = data[i];
            let mut j: usize = 0;
            while j < cols
                invariant
                    rows == data@.len(),
                    cols == data@[0]@.len(),
                    cols >= 1,
                    forall|x: int| 0 <= x < data@.len() ==> (#[trigger] data@[x])@.len() == cols,
                    rows * cols <= usize::MAX,
                    i < rows,
                    row@ == data@[i as int]@,
                    j <= cols,
                    cells@.len() == i * cols + j,
                    forall|t: int|
                        0 <= t < cells@.len() ==> #[trigger] cells@[t] == data@[t
                            / cols as int]@[t % cols as int],
                decreases cols - j,
            {
                proof {
                    lemma_flat_bound(i as int, j as int, rows as int, cols as int);
                    lemma_flat_index(i as int, j as int, cols as int);
                }
                cells.push(row[j]);
                j = j + 1;
            }
            proof {
                lemma_next_row(i as int, cols as int);
            }
            i = i + 1;
        }
        let r = LinMatrix { rows, cols, data: cells };
        proof {
            assert forall|x: int, y: int| 0 <= x < r@.rows && 0 <= y < r@.cols implies #[trigger] r@.entry(x, y) == data@[x]@[y] by {
                lemma_flat_bound(x, y, rows as int, cols as int);
                lemma_flat_index(x, y, cols as int);
            }
        }
        r
    }

    /// The shape, as `(rows, cols)`; every matrix has at least one row and
    /// one column, and a cell for each position.
    pub fn dim(&self) -> (r: (usize, usize))
        ensures
            r.0 == self@.rows,
            r.1 == self@.cols,
            self@.wf(),
    {
        proof {
            use_type_invariant(self);
        }
        (self.rows, self.cols)
    }

    /// The cell in row `row` and column `col`.
    pub fn get(&self, row: usize, col: usize) -> (r: LinNum)
        requires
            row < self@.rows,
            col < self@.cols,
        ensures
            r == self@.entry(row as int, col as int),
    {
        proof {
            use_type_invariant(self);
            lemma_flat_bound(row as int, col as int, self.rows as int, self.cols as int);
        }
        self.data[row * self.cols + col]
    }

    /// Replaces the cell in row `row` and column `col`.
    pub fn set(&mut self, row: usize, col: usize, value: LinNum)
        requires
            row < old(self)@.rows,
            col < old(self)@.cols,
        ensures
            final(self)@.rows == old(self)@.rows,
            final(self)@.cols == old(self)@.cols,
            final(self)@.cells == old(self)@.cells.update(
                row * old(self)@.cols + col,
                value,
            ),
        no_unwind
    {
        proof {
            use_type_invariant(&*self);
            lemma_flat_bound(row as int, col as int, self.rows as int, self.cols as int);
        }
        let k = row * self.cols + col;
        self.data[k] = value;
    }

    fn zip_add(&self, other: &LinMatrix) -> (r: LinMatrix)
        requires
            self@.same_shape(other@),
            cells_add_ok(self@, other@),
        ensures
            is_sum(r@, self@, other@),
    {
        proof {
            use_type_invariant(self);
            use_type_invariant(other);
        }
        let n = self.data.len();
        let mut data: Vec<LinNum> = Vec::new();
        let mut t: usize = 0;
        while t < n
            invariant
                n == self@.cells.len(),
                n == other@.cells.len(),
                t <= n,
                data@.len() == t,
                cells_add_ok(self@, other@),
                forall|u: int|
                    0 <= u < t ==> (#[trigger] data@[u])@ == add_view(
                        self@.cells[u]@,
                        other@.cells[u]@,
                    ),
            decreases n - t,
        {
            let value = self.data[t].add(other.data[t]);
            data.push(value);
            t = t + 1;
        }
        LinMatrix { rows: self.rows, cols: self.cols, data }
    }

    /// The elementwise sum; `DimensionMismatch` when the shapes differ.
    pub fn add(self, other: LinMatrix) -> (r: Result<LinMatrix, MatrixError>)
        requires
            self@.same_shape(other@) ==> cells_add_ok(self@, other@),
        ensures
            r is Err <==> !self@.same_shape(other@),
            r matches Ok(m) ==> is_sum(m@, self@, other@),
    {
        if self.rows != other.rows || self.cols != other.cols {
            return Err(MatrixError::DimensionMismatch);
        }
        Ok(self.zip_add(&other))
    }

    /// Replaces the matrix by its elementwise sum with `other`, which must
    /// have the same shape.
    pub fn add_assign(&mut self, other: LinMatrix)
        requires
            old(self)@.same_shape(other@),
            cells_add_ok(old(self)@, other@),
        ensures
            is_sum(final(self)@, old(self)@, other@),
    {
        *self = self.zip_add(&other);
    }

    fn zip_sub(&self, other: &LinMatrix) -> (r: LinMatrix)
        requires
            self@.same_shape(other@),
            cells_sub_ok(self@, other@),
        ensures
            is_difference(r@, self@, other@),
    {
        proof {
            use_type_invariant(self);
            use_type_invariant(other);
        }
        let n = self.data.len();
        let mut data: Vec<LinNum> = Vec::new();
        let mut t: usize = 0;
        while t < n
            invariant
                n == self@.cells.len(),
                n == other@.cells.len(),
                t <= n,
                data@.len() == t,
                cells_sub_ok(self@, other@),
                forall|u: int|
                    0 <= u < t ==> (#[trigger] data@[u])@ == sub_view(
                        self@.cells[u]@,
                        other@.cells[u]@,
                    ),
            decreases n - t,
        {
            let value = self.data[t].sub(other.data[t]);
            data.push(value);
            t = t + 1;
        }
        LinMatrix { rows: self.rows, cols: self.cols, data }
    }

    /// The elementwise difference; `DimensionMismatch` when the shapes differ.
    pub fn sub(self, other: LinMatrix) -> (r: Result<LinMatrix, MatrixError>)
        requires
            self@.same_shape(other@) ==> cells_sub_ok(self@, other@),
        ensures
            r is Err <==> !self@.same_shape(other@),
            r matches Ok(m) ==> is_difference(m@, self@, other@),
    {
        if self.rows != other.rows || self.cols != other.cols {
            return Err(MatrixError::DimensionMismatch);
        }
        Ok(self.zip_sub(&other))
    }

    /// Replaces the matrix by its elementwise difference with `other`, which must
    /// have the same shape.
    pub fn sub_assign(&mut self, other: LinMatrix)
        requires
            old(self)@.same_shape(other@),
            cells_sub_ok(old(self)@, other@),
        ensures
            is_difference(final(self)@, old(self)@, other@),
    {
        *self = self.zip_sub(&other);
    }

    fn map_mul(&self, other: LinNum) -> (r: LinMatrix)
        requires
            cells_mul_ok(self@, other@),
        ensures
            is_scaled(r@, self@, other@),
    {
        proof {
            use_type_invariant(self);
        }
        let n = self.data.len();
        let mut data: Vec<LinNum> = Vec::new();
        let mut t: usize = 0;
        while t < n
            invariant
                n == self@.cells.len(),
                t <= n,
                data@.len() == t,
                cells_mul_ok(self@, other@),
                forall|u: int|
                    0 <= u < t ==> (#[trigger] data@[u])@ == mul_view(self@.cells[u]@, other@),
            decreases n - t,
        {
            let value = self.data[t].mul(other);
            data.push(value);
            t = t + 1;
        }
        LinMatrix { rows: self.rows, cols: self.cols, data }
    }

    /// Every cell multiplied by `other`.
    pub fn mul_scalar(self, other: LinNum) -> (r: LinMatrix)
        requires
            cells_mul_ok(self@, other@),
        ensures
            is_scaled(r@, self@, other@),
    {
        self.map_mul(other)
    }

    /// Replaces every cell by itself multiplied by `other`.
    pub fn mul_scalar_assign(&mut self, other: LinNum)
        requires
            cells_mul_ok(old(self)@, other@),
        ensures
            is_scaled(final(self)@, old(self)@, other@),
    {
        *self = self.map_mul(other);
    }

    fn map_div(&self, other: LinNum) -> (r: LinMatrix)
        requires
            cells_div_ok(self@, other@),
        ensures
            is_divided(r@, self@, other@),
    {
        proof {
            use_type_invariant(self);
        }
        let n = self.data.len();
        let mut data: Vec<LinNum> = Vec::new();
        let mut t: usize = 0;
        while t < n
            invariant
                n == self@.cells.len(),
                t <= n,
                data@.len() == t,
                cells_div_ok(self@, other@),
                forall|u: int|
                    0 <= u < t ==> (#[trigger] data@[u])@ == div_view(self@.cells[u]@, other@),
            decreases n - t,
        {
            let value = self.data[t].div(other);
            data.push(value);
            t = t + 1;
        }
        LinMatrix { rows: self.rows, cols: self.cols, data }
    }

    /// Every cell divided by `other`.
    pub fn div_scalar(self, other: LinNum) -> (r: LinMatrix)
        requires
            cells_div_ok(self@, other@),
        ensures
            is_divided(r@, self@, other@),
    {
        self.map_div(other)
    }

    /// Replaces every cell by itself divided by `other`.
    pub fn div_scalar_assign(&mut self, other: LinNum)
        requires
            cells_div_ok(old(self)@, other@),
        ensures
            is_divided(final(self)@, old(self)@, other@),
    {
        *self = self.map_div(other);
    }

    /// The matrix product; `DimensionMismatch` unless the columns of `self`
    /// match the rows of `other`. Each cell sums its products from a real zero.
    pub fn mul(self, other: LinMatrix) -> (r: Result<LinMatrix, MatrixError>)
        requires
            self@.cols == other@.rows ==> self@.rows * other@.cols <= usize::MAX,
            self@.cols == other@.rows ==> products_ok(self@, other@),
        ensures
            r is Err <==> self@.cols != other@.rows,
            r matches Ok(m) ==> is_product(m@, self@, other@),
    {
        proof {
            use_type_invariant(&self);
            use_type_invariant(&other);
        }
        if self.cols != other.rows {
            return Err(MatrixError::DimensionMismatch);
        }
        let rows = self.rows;
        let inner = self.cols;
        let cols = other.cols;
        let ghost a = self@;
        let ghost b = other@;
        let mut data: Vec<LinNum> = Vec::new();
        let mut i: usize = 0;
        while i < rows
            invariant
                a == self@,
                b == other@,
                rows == a.rows,
                inner == a.cols,
                inner == b.rows,
                cols == b.cols,
                cols >= 1,
                rows * cols <= usize::MAX,
                products_ok(a, b),
                i <= rows,
                data@.len() == i * cols,
                forall|t: int|
                    0 <= t < data@.len() ==> (#[trigger] data@[t])@ == dot_view(
                        a,
                        b,
                        t / cols as int,
                        t % cols as int,
                        inner as int,
                    ),
            decreases rows - i,
        {
            let mut j: usize = 0;
            while j < cols
                invariant
                    a == self@,
                    b == other@,
                    rows == a.rows,
                    inner == a.cols,
                    inner == b.rows,
                    cols == b.cols,
                    cols >= 1,
                    rows * cols <= usize::MAX,
                    products_ok(a, b),
                    i < rows,
                    j <= cols,
                    data@.len() == i * cols + j,
                    forall|t: int|
                        0 <= t < data@.len() ==> (#[trigger] data@[t])@ == dot_view(
                            a,
                            b,
                            t / cols as int,
                            t % cols as int,
                            inner as int,
                        ),
                decreases cols - j,
            {
                let mut sum = LinNum::new_real(ZERO_BITS);
                let mut k: usize = 0;
                while k < inner
                    invariant
                        a == self@,
                        b == other@,
                        rows == a.rows,
                        inner == a.cols,
                        inner == b.rows,
                        cols == b.cols,
                        products_ok(a, b),
                        i < rows,
                        j < cols,
                        k <= inner,
                        sum@ == dot_view(a, b, i as int, j as int, k as int),
                        sum@ is Real,
                    decreases inner - k,
                {
                    let x = self.get(i, k);
                    let y = other.get(k, j);
                    assert(mul_ok(a.entry(i as int, k as int)@, b.entry(k as int, j as int)@));
                    let p = x.mul(y);
                    sum = sum.add(p);
                    k = k + 1;
                }
                proof {
                    lemma_flat_bound(i as int, j as int, rows as int, cols as int);
                    lemma_flat_index(i as int, j as int, cols as int);
                }
                data.push(sum);
                j = j + 1;
            }
            proof {
                lemma_next_row(i as int, cols as int);
            }
            i = i + 1;
        }
        let r = LinMatrix { rows, cols, data };
        proof {
            assert forall|x: int, y: int| 0 <= x < r@.rows && 0 <= y < r@.cols implies (
            #[trigger] r@.entry(x, y))@ == dot_view(a, b, x, y, a.cols as int) by {
                lemma_flat_bound(x, y, rows as int, cols as int);
                lemma_flat_index(x, y, cols as int);
            }
        }
        Ok(r)
    }

    /// The matrix with row 0 and column `c` deleted.
    fn minor(&self, c: usize) -> (r: LinMatrix)
        requires
            self@.rows == self@.cols,
            self@.rows >= 2,
            c < self@.cols,
        ensures
            r@ == minor_view(self@, c as int),
    {
        proof {
            use_type_invariant(self);
        }
        let n = self.rows;
        let k = n - 1;
        let ghost m = self@;
        proof {
            assert(k * k <= n * n) by (nonlinear_arith)
                requires
                    k < n,
                    k >= 1,
            ;
        }
        let mut data: Vec<LinNum> = Vec::new();
        let mut j: usize = 1;
        while j < n
            invariant
                m == self@,
                n == m.rows,
                n == m.cols,
                k == n - 1,
                k >= 1,
                c < n,
                n * n <= usize::MAX,
                1 <= j <= n,
                data@.len() == (j - 1) * k,
                forall|t: int|
                    0 <= t < data@.len() ==> #[trigger] data@[t] == minor_view(m, c as int).cells[t],
            decreases n - j,
        {
            let mut col: usize = 0;
            while col < n
                invariant
                    m == self@,
                    n == m.rows,
                    n == m.cols,
                    k == n - 1,
                    k >= 1,
                    c < n,
                    n * n <= usize::MAX,
                    1 <= j < n,
                    col <= n,
                    data@.len() == (j - 1) * k + (if col <= c {
                        col as int
                    } else {
                        col - 1
                    }),
                    forall|t: int|
                        0 <= t < data@.len() ==> #[trigger] data@[t] == minor_view(
                            m,
                            c as int,
                        ).cells[t],
                decreases n - col,
            {
                if col != c {
                    let kk: Ghost<int> = Ghost(if col < c { col as int } else { col - 1 });
                    proof {
                        lemma_flat_bound((j - 1) as int, kk@, k as int, k as int);
                        lemma_flat_index((j - 1) as int, kk@, k as int);
                    }
                    let value = self.get(j, col);
                    data.push(value);
                }
                col = col + 1;
            }
            proof {
                lemma_next_row((j - 1) as int, k as int);
            }
            j = j + 1;
        }
        proof {
            assert(data@ =~= minor_view(m, c as int).cells);
            assert(k * k <= usize::MAX);
        }
        LinMatrix { rows: k, cols: k, data }
    }

    /// The determinant, by cofactor expansion along the first row;
    /// `DimensionMismatch` unless the matrix is square.
    pub fn determinant(&self) -> (r: Result<LinNum, MatrixError>)
        requires
            self@.rows == self@.cols ==> det_ok(self@),
        ensures
            r is Err <==> self@.rows != self@.cols,
            r matches Ok(d) ==> d@ == det_view(self@),
        decreases self@.rows,
    {
        proof {
            use_type_invariant(self);
        }
        if self.rows != self.cols {
            return Err(MatrixError::DimensionMismatch);
        }
        if self.rows == 1 {
            return Ok(self.get(0, 0));
        }
        if self.rows == 2 {
            let ad = self.get(0, 0).mul(self.get(1, 1));
            let bc = self.get(0, 1).mul(self.get(1, 0));
            return Ok(ad.sub(bc));
        }
        let ghost m = self@;
        let mut det = LinNum::from_int(0);
        let mut i: usize = 0;
        while i < self.cols
            invariant
                m == self@,
                m.rows == m.cols,
                m.rows >= 3,
                i <= m.cols,
                det_ok(m),
                det@ == cofactor_sum(m, i as int),
            decreases m.cols - i,
        {
            proof {
                lemma_cofactor_ok_prefix(m, m.cols as int, i + 1);
            }
            let sub = self.minor(i);
            let sub_det = match sub.determinant() {
                Ok(d) => d,
                Err(e) => return Err(e),
            };
            let sign = if i % 2 == 0 {
                LinNum::from_int(1)
            } else {
                LinNum::from_int(-1)
            };
            let term = self.get(0, i).mul(sub_det).mul(sign);
            det = det.add(term);
            i = i + 1;
        }
        Ok(det)
    }

    /// The transpose.
    pub fn transpose(&self) -> (r: LinMatrix)
        ensures
            r@ == transpose_view(self@),
    {
        proof {
            use_type_invariant(self);
        }
        let rows = self.rows;
        let cols = self.cols;
        let ghost m = self@;
        let mut data: Vec<LinNum> = Vec::new();
        let mut i: usize = 0;
        while i < cols
            invariant
                rows == m.rows,
                cols == m.cols,
                m == self@,
                rows >= 1,
                m.cells.len() == rows * cols,
                rows * cols <= usize::MAX,
                i <= cols,
                data@.len() == i * rows,
                forall|t: int|
                    0 <= t < data@.len() ==> #[trigger] data@[t] == m.entry(
                        t % rows as int,
                        t / rows as int,
                    ),
            decreases cols - i,
        {
            let mut j: usize = 0;
            while j < rows
                invariant
                    rows == m.rows,
                    cols == m.cols,
                    m == self@,
                    rows >= 1,
                    m.cells.len() == rows * cols,
                    rows * cols <= usize::MAX,
                rows * cols <= usize::MAX,
                    i < cols,
                    j <= rows,
                    data@.len() == i * rows + j,
                    forall|t: int|
                        0 <= t < data@.len() ==> #[trigger] data@[t] == m.entry(
                            t % rows as int,
                            t / rows as int,
                        ),
                decreases rows - j,
            {
                proof {
                    lemma_flat_bound(j as int, i as int, rows as int, cols as int);
                    lemma_flat_index(i as int, j as int, rows as int);
                }
                let value = self.data[j * cols + i];
                data.push(value);
                j = j + 1;
            }
            proof {
                lemma_next_row(i as int, rows as int);
            }
            i = i + 1;
        }
        proof {
            assert(cols * rows == rows * cols) by (nonlinear_arith);
            assert(data@ =~= transpose_view(m).cells);
        }
        LinMatrix { rows: cols, cols: rows, data }
    }
}

/// Where a flat index of a `rows` by `cols` grid falls: its row and column.
proof fn lemma_flat_split(k: int, rows: int, cols: int)
    requires
        cols >= 1,
        0 <= k < rows * cols,
    ensures
        0 <= k / cols < rows,
        0 <= k % cols < cols,
        k == (k / cols) * cols + k % cols,
{
    lemma_fundamental_div_mod(k, cols);
    let i = k / cols;
    let j = k % cols;
    assert(0 <= i < rows) by (nonlinear_arith)
        requires
            k == cols * i + j,
            0 <= j < cols,
            0 <= k < rows * cols,
            cols >= 1,
    ;
    assert(cols * i == i * cols) by (nonlinear_arith);
}

/// Transposing twice gives the matrix back.
pub proof fn lemma_transpose_involution(m: MatrixView)
    requires
        m.wf(),
    ensures
        transpose_view(transpose_view(m)) == m,
{
    let r = m.rows as int;
    let c = m.cols as int;
    let t = transpose_view(m);
    let tt = transpose_view(t);
    assert(c * r == r * c) by (nonlinear_arith);
    assert forall|k: int| 0 <= k < m.cells.len() implies tt.cells[k] == m.cells[k] by {
        lemma_flat_split(k, r, c);
        let i = k / c;
        let j = k % c;
        lemma_flat_bound(j, i, c, r);
        lemma_flat_index(j, i, r);
    }
    assert(tt.cells =~= m.cells);
}

/// The range conditions of the first `k` cofactor terms hold for any fewer.
proof fn lemma_cofactor_ok_prefix(m: MatrixView, k: int, j: int)
    requires
        cofactor_ok(m, k),
        0 <= j <= k <= m.cols,
    ensures
        cofactor_ok(m, j),
    decreases k,
{
    if j < k && m.rows >= 2 {
        lemma_cofactor_ok_prefix(m, k - 1, j);
    }
}

impl LinNum {
    /// Every cell of `m` multiplied by this scalar.
    pub fn mul_matrix(self, m: LinMatrix) -> (r: LinMatrix)
        requires
            cells_mul_ok(m@, self@),
        ensures
            is_scaled(r@, m@, self@),
    {
        m.mul_scalar(self)
    }
}

/// Every cell of `m` is a fraction.
pub open spec fn all_rational(m: MatrixView) -> bool {
    forall|i: int, j: int| 0 <= i < m.rows && 0 <= j < m.cols ==> (#[trigger] m.entry(i, j))@ is Rational
}

/// A minor of a square matrix of fractions is a square matrix of fractions.
proof fn lemma_minor_rational(m: MatrixView, c: int)
    requires
        m.wf(),
        m.rows == m.cols,
        m.rows >= 2,
        0 <= c < m.cols,
        all_rational(m),
    ensures
        minor_view(m, c).wf(),
        minor_view(m, c).rows == minor_view(m, c).cols,
        all_rational(minor_view(m, c)),
{
    let n = m.rows as int;
    let k = n - 1;
    let mi = minor_view(m, c);
    assert(k * k <= n * n) by (nonlinear_arith)
        requires
            k < n,
            k >= 1,
    ;
    assert forall|i: int, j: int| 0 <= i < mi.rows && 0 <= j < mi.cols implies (#[trigger] mi.entry(
        i,
        j,
    ))@ is Rational by {
        lemma_flat_bound(i, j, k, k);
        lemma_flat_index(i, j, k);
    }
}

/// Cofactor sums over a matrix of fractions are fractions.
proof fn lemma_cofactor_rational(m: MatrixView, k: int)
    requires
        m.wf(),
        m.rows == m.cols,
        m.rows >= 3,
        0 <= k <= m.cols,
        all_rational(m),
    ensures
        cofactor_sum(m, k) is Rational,
    decreases m.rows, k,
{
    if k > 0 {
        lemma_cofactor_rational(m, k - 1);
        lemma_minor_rational(m, k - 1);
        lemma_det_exact(minor_view(m, k - 1));
        assert(m.entry(0, k - 1)@ is Rational);
        assert(cofactor_term(m, k - 1) is Rational);
        assert(cofactor_sum(m, k) == add_view(cofactor_sum(m, k - 1), cofactor_term(m, k - 1)));
    }
}

/// The determinant of a matrix of fractions is a fraction: every step is
/// exact and nothing is rounded.
pub proof fn lemma_det_exact(m: MatrixView)
    requires
        m.wf(),
        m.rows == m.cols,
        all_rational(m),
    ensures
        det_view(m) is Rational,
    decreases m.rows, m.cols + 1,
{
    if m.rows <= 1 {
        assert(m.entry(0, 0)@ is Rational);
    } else if m.rows == 2 {
        assert(m.entry(0, 0)@ is Rational);
        assert(m.entry(1, 1)@ is Rational);
        assert(m.entry(0, 1)@ is Rational);
        assert(m.entry(1, 0)@ is Rational);
    } else {
        lemma_cofactor_rational(m, m.cols as int);
    }
}

/// Dividing a matrix of fractions by a fraction gives a matrix of
/// fractions: every quotient is exact.
pub proof fn lemma_div_exact(r: MatrixView, a: MatrixView, s: NumView)
    requires
        a.wf(),
        all_rational(a),
        s is Rational,
        is_divided(r, a, s),
    ensures
        all_rational(r),
{
    assert forall|i: int, j: int| 0 <= i < r.rows && 0 <= j < r.cols implies (#[trigger] r.entry(
        i,
        j,
    ))@ is Rational by {
        lemma_flat_bound(i, j, a.rows as int, a.cols as int);
        assert(a.entry(i, j)@ is Rational);
    }
}

} // verus!
