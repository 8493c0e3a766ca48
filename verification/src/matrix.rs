//! Dense 2-D container of binary64 bit patterns, with elementwise, algebraic
//! and reduction operations and a binary serialization format.
//!
//! A matrix is rectangular with at least one row and one column; operations
//! that combine two matrices elementwise demand identical dimensions and
//! report a `DimensionError` otherwise. Column vectors (kets) and row vectors
//! (bras) are matrices with one column or one row.
use vstd::prelude::*;

use crate::fp;
use crate::prng::Xorrng;
use crate::prng::scaled_bits;
use crate::prng::state_after;

verus! {

use vstd::bytes::lemma_auto_spec_u64_to_from_le_bytes;
use vstd::bytes::spec_u64_from_le_bytes;
use vstd::bytes::spec_u64_to_le_bytes;
use vstd::bytes::u64_from_le_bytes;
use vstd::bytes::u64_to_le_bytes;
use vstd::slice::slice_subrange;

/// A truncated or inconsistent binary buffer was handed to a decoder.
#[derive(Debug, Clone, Copy, PartialEq, Eq, Structural)]
pub struct MalformedPersistedData;

/// A rows x columns grid of binary64 bit patterns, row-major.
#[derive(Debug, Clone, PartialEq)]
pub struct Matrix {
    pub data: Vec<Vec<u64>>,
}

/// The dimensions on which a multiply or elementwise combination failed.
#[derive(Debug, Clone, Copy, PartialEq, Eq, Structural)]
pub struct DimensionError {
    pub rows_a: usize,
    pub columns_a: usize,
    pub rows_b: usize,
    pub columns_b: usize,
}

/// A named elementwise binary operation on binary64 bit patterns.
/// `SubScaled(r)` subtracts the second operand scaled by the value with bit
/// pattern `r`: a - b * r, as the parameter update rule needs.
#[derive(Clone, Copy)]
pub enum BinOp {
    Add,
    Sub,
    Mul,
    SquaredDiff,
    SubScaled(u64),
}

/// A named elementwise unary operation on binary64 bit patterns.
#[derive(Clone, Copy)]
pub enum UnOp {
    Logistic,
    LogisticDeriv,
}

/// What a binary operation returns on two cells.
pub open spec fn bin_bits(op: BinOp, a: u64, b: u64) -> u64 {
    match op {
        BinOp::Add => fp::add_bits_of(a, b),
        BinOp::Sub => fp::sub_bits_of(a, b),
        BinOp::Mul => fp::mul_bits_of(a, b),
        BinOp::SquaredDiff => fp::mul_bits_of(fp::sub_bits_of(a, b), fp::sub_bits_of(a, b)),
        BinOp::SubScaled(r) => fp::sub_bits_of(a, fp::mul_bits_of(b, r)),
    }
}

/// What a unary operation returns on a cell.
pub open spec fn un_bits(op: UnOp, x: u64) -> u64 {
    match op {
        UnOp::Logistic => fp::logistic_bits_of(x),
        UnOp::LogisticDeriv => fp::logistic_deriv_bits_of(x),
    }
}

/// Applies a binary operation to two cells.
fn apply_bin(op: BinOp, a: u64, b: u64) -> (r: u64)
    ensures
        r == bin_bits(op, a, b),
{
    match op {
        BinOp::Add => fp::add_bits(a, b),
        BinOp::Sub => fp::sub_bits(a, b),
        BinOp::Mul => fp::mul_bits(a, b),
        BinOp::SquaredDiff => {
            let d = fp::sub_bits(a, b);
            fp::mul_bits(d, d)
        },
        BinOp::SubScaled(r) => fp::sub_bits(a, fp::mul_bits(b, r)),
    }
}

/// Applies a unary operation to a cell.
fn apply_un(op: UnOp, x: u64) -> (r: u64)
    ensures
        r == un_bits(op, x),
{
    match op {
        UnOp::Logistic => {
            let e = fp::exp_bits(fp::neg_bits(x));
            fp::div_bits(fp::ONE_BITS, fp::add_bits(fp::ONE_BITS, e))
        },
        UnOp::LogisticDeriv => {
            let e = fp::exp_bits(fp::neg_bits(x));
            let s = fp::div_bits(fp::ONE_BITS, fp::add_bits(fp::ONE_BITS, e));
            fp::mul_bits(s, fp::sub_bits(fp::ONE_BITS, s))
        },
    }
}

/// Column `j` of a grid, as a flat sequence.
pub open spec fn col_of(m: Seq<Seq<u64>>, j: int) -> Seq<u64> {
    Seq::new(m.len(), |k: int| m[k][j])
}

/// The binary64 dot product of the first `n` entries of `a` and `b`,
/// accumulated left to right from 0.0: each step adds one product to the
/// running sum, with one rounding per operation.
pub open spec fn dot_bits(a: Seq<u64>, b: Seq<u64>, n: nat) -> u64
    decreases n,
{
    if n == 0 {
        fp::ZERO_BITS
    } else {
        fp::add_bits_of(
            dot_bits(a, b, (n - 1) as nat),
            fp::mul_bits_of(a[n - 1], b[n - 1]),
        )
    }
}

/// A left fold of `op` over the first `n` entries of one row, from `acc`.
pub open spec fn fold_row_bits(op: BinOp, acc: u64, row: Seq<u64>, n: nat) -> u64
    decreases n,
{
    if n == 0 {
        acc
    } else {
        bin_bits(op, fold_row_bits(op, acc, row, (n - 1) as nat), row[n - 1])
    }
}

/// A left fold of `op` over all cells of the first `n` rows in row-major
/// order, from `acc`.
pub open spec fn fold_rows_bits(op: BinOp, acc: u64, m: Seq<Seq<u64>>, n: nat) -> u64
    decreases n,
{
    if n == 0 {
        acc
    } else {
        fold_row_bits(
            op,
            fold_rows_bits(op, acc, m, (n - 1) as nat),
            m[n - 1],
            m[n - 1].len(),
        )
    }
}

/// A well-formed matrix: at least one row, at least one column, and every
/// row of the same length.
pub open spec fn mat_wf(m: Seq<Seq<u64>>) -> bool {
    &&& m.len() >= 1
    &&& m[0].len() >= 1
    &&& forall|i: int| 0 <= i < m.len() ==> #[trigger] m[i].len() == m[0].len()
}

/// The elementwise image of `op` over two same-shape grids.
pub open spec fn mat_bin(op: BinOp, a: Seq<Seq<u64>>, b: Seq<Seq<u64>>) -> Seq<Seq<u64>> {
    Seq::new(a.len(), |i: int| Seq::new(a[i].len(), |j: int| bin_bits(op, a[i][j], b[i][j])))
}

/// The elementwise image of `op` over one grid.
pub open spec fn mat_un(op: UnOp, a: Seq<Seq<u64>>) -> Seq<Seq<u64>> {
    Seq::new(a.len(), |i: int| Seq::new(a[i].len(), |j: int| un_bits(op, a[i][j])))
}

/// The transpose of a grid.
pub open spec fn mat_transpose(a: Seq<Seq<u64>>) -> Seq<Seq<u64>> {
    Seq::new(a[0].len(), |i: int| Seq::new(a.len(), |j: int| a[j][i]))
}

/// The product grid: cell (i, j) is row i of `a` dot column j of `b`.
pub open spec fn mat_product(a: Seq<Seq<u64>>, b: Seq<Seq<u64>>) -> Seq<Seq<u64>> {
    Seq::new(
        a.len(),
        |i: int| Seq::new(b[0].len(), |j: int| dot_bits(a[i], col_of(b, j), b.len())),
    )
}

/// The outer-product grid of a column vector and a row vector.
pub open spec fn mat_outer(k: Seq<Seq<u64>>, b: Seq<Seq<u64>>) -> Seq<Seq<u64>> {
    Seq::new(k.len(), |i: int| Seq::new(b[0].len(), |j: int| fp::mul_bits_of(k[i][0], b[0][j])))
}

/// A column vector holding the given cells.
pub open spec fn ket_of(v: Seq<u64>) -> Seq<Seq<u64>> {
    Seq::new(v.len(), |i: int| seq![v[i]])
}

/// The all-zero grid of a shape.
pub open spec fn zero_grid(rows: nat, cols: nat) -> Seq<Seq<u64>> {
    Seq::new(rows, |i: int| Seq::new(cols, |j: int| fp::ZERO_BITS))
}

/// The grid drawn from a generator in row-major order: the cell at (i, j)
/// is the (i * cols + j + 1)-th draw from state `s`, mapped into [lo, hi).
pub open spec fn random_grid(s: u64, rows: nat, cols: nat, lo: u64, hi: u64) -> Seq<Seq<u64>> {
    Seq::new(
        rows,
        |i: int|
            Seq::new(
                cols,
                |j: int| scaled_bits(state_after(s, (i * cols + j + 1) as nat), lo, hi),
            ),
    )
}

/// A square identity grid: exact ones on the diagonal, exact zeroes
/// elsewhere.
pub open spec fn is_identity_grid(m: Seq<Seq<u64>>) -> bool {
    &&& mat_wf(m)
    &&& m.len() == m[0].len()
    &&& forall|i: int, j: int|
        0 <= i < m.len() && 0 <= j < m.len() ==> #[trigger] m[i][j] == (if i == j {
            fp::ONE_BITS
        } else {
            fp::ZERO_BITS
        })
}

/// A grid whose every cell is a positive finite value.
pub open spec fn pos_finite_grid(m: Seq<Seq<u64>>) -> bool {
    forall|i: int, j: int|
        0 <= i < m.len() && 0 <= j < m[i].len() ==> fp::is_pos_finite(#[trigger] m[i][j])
}

/// An elementwise binary image of a well-formed grid keeps its shape.
pub proof fn lemma_mat_bin_wf(op: BinOp, a: Seq<Seq<u64>>, b: Seq<Seq<u64>>)
    requires
        mat_wf(a),
    ensures
        mat_wf(mat_bin(op, a, b)),
        mat_bin(op, a, b).len() == a.len(),
        mat_bin(op, a, b)[0].len() == a[0].len(),
{
    let g = mat_bin(op, a, b);
    assert forall|i: int| 0 <= i < g.len() implies #[trigger] g[i].len() == g[0].len() by {
        assert(a[i].len() == a[0].len());
    }
}

/// An elementwise unary image of a well-formed grid keeps its shape.
pub proof fn lemma_mat_un_wf(op: UnOp, a: Seq<Seq<u64>>)
    requires
        mat_wf(a),
    ensures
        mat_wf(mat_un(op, a)),
        mat_un(op, a).len() == a.len(),
        mat_un(op, a)[0].len() == a[0].len(),
{
    let g = mat_un(op, a);
    assert forall|i: int| 0 <= i < g.len() implies #[trigger] g[i].len() == g[0].len() by {
        assert(a[i].len() == a[0].len());
    }
}

/// The transpose of a well-formed grid is well formed with swapped shape.
pub proof fn lemma_mat_transpose_wf(a: Seq<Seq<u64>>)
    requires
        mat_wf(a),
    ensures
        mat_wf(mat_transpose(a)),
        mat_transpose(a).len() == a[0].len(),
        mat_transpose(a)[0].len() == a.len(),
{
    let g = mat_transpose(a);
    assert forall|i: int| 0 <= i < g.len() implies #[trigger] g[i].len() == g[0].len() by {}
}

/// The outer product of well-formed grids is well formed, with the column
/// vector's row count and the row vector's column count.
pub proof fn lemma_mat_outer_wf(k: Seq<Seq<u64>>, b: Seq<Seq<u64>>)
    requires
        mat_wf(k),
        mat_wf(b),
    ensures
        mat_wf(mat_outer(k, b)),
        mat_outer(k, b).len() == k.len(),
        mat_outer(k, b)[0].len() == b[0].len(),
{
    let g = mat_outer(k, b);
    assert forall|i: int| 0 <= i < g.len() implies #[trigger] g[i].len() == g[0].len() by {}
}

/// A drawn grid of a positive shape is well formed and has that shape.
pub proof fn lemma_random_grid_wf(s: u64, rows: nat, cols: nat, lo: u64, hi: u64)
    requires
        rows >= 1,
        cols >= 1,
    ensures
        mat_wf(random_grid(s, rows, cols, lo, hi)),
        random_grid(s, rows, cols, lo, hi).len() == rows,
        random_grid(s, rows, cols, lo, hi)[0].len() == cols,
{
    let g = random_grid(s, rows, cols, lo, hi);
    assert(forall|i: int| 0 <= i < g.len() ==> #[trigger] g[i].len() == cols);
}

impl View for Matrix {
    type V = Seq<Seq<u64>>;

    open spec fn view(&self) -> Seq<Seq<u64>> {
        self.data@.map_values(|r: Vec<u64>| r@)
    }
}

impl Matrix {
    /// Well-formedness of this matrix's grid.
    pub open spec fn wf(&self) -> bool {
        mat_wf(self@)
    }

    /// The number of rows.
    pub fn rows(&self) -> (r: usize)
        ensures
            r == self@.len(),
    {
        self.data.len()
    }

    /// The number of columns.
    pub fn columns(&self) -> (r: usize)
        requires
            self.wf(),
        ensures
            r == self@[0].len(),
    {
        self.data[0].len()
    }

    /// The all-zero matrix of the given shape: every cell is the bit pattern
    /// of 0.0.
    pub fn zeroes(rows: usize, columns: usize) -> (r: Self)
        requires
            rows >= 1,
            columns >= 1,
        ensures
            r.wf(),
            r@.len() == rows,
            forall|i: int| 0 <= i < rows ==> #[trigger] r@[i].len() == columns,
            forall|i: int, j: int|
                0 <= i < rows && 0 <= j < columns ==> #[trigger] r@[i][j] == fp::ZERO_BITS,
            r@ == zero_grid(rows as nat, columns as nat),
    {
        let mut k: Vec<Vec<u64>> = Vec::new();
        for i in 0..rows
            invariant
                k@.len() == i,
                forall|t: int| 0 <= t < i ==> #[trigger] k@[t]@.len() == columns,
                forall|t: int, j: int|
                    0 <= t < i && 0 <= j < columns ==> #[trigger] k@[t]@[j] == fp::ZERO_BITS,
        {
            let mut row: Vec<u64> = Vec::new();
            for j in 0..columns
                invariant
                    row@.len() == j,
                    forall|t: int| 0 <= t < j ==> #[trigger] row@[t] == fp::ZERO_BITS,
            {
                row.push(fp::ZERO_BITS);
            }
            k.push(row);
        }
        let m = Self { data: k };
        proof {
            assert(m@ =~~= zero_grid(rows as nat, columns as nat));
        }
        m
    }

    /// Wraps a flat sequence of bit patterns as a 1 x n row vector.
    pub fn as_bra(vec: Vec<u64>) -> (r: Self)
        requires
            vec@.len() >= 1,
        ensures
            r.wf(),
            r@.len() == 1,
            r@[0] == vec@,
            r@ == seq![vec@],
    {
        let mut data: Vec<Vec<u64>> = Vec::new();
        data.push(vec);
        let m = Self { data };
        proof {
            assert(m@ =~~= seq![m.data@[0]@]);
        }
        m
    }

    /// Wraps a flat sequence of bit patterns as an n x 1 column vector.
    pub fn as_ket(vec: Vec<u64>) -> (r: Self)
        requires
            vec@.len() >= 1,
        ensures
            r.wf(),
            r@.len() == vec@.len(),
            forall|i: int| 0 <= i < vec@.len() ==> #[trigger] r@[i].len() == 1,
            forall|i: int| 0 <= i < vec@.len() ==> #[trigger] r@[i][0] == vec@[i],
            r@ == ket_of(vec@),
    {
        let ghost v: Seq<u64> = vec@;
        let m = Self::as_bra(vec).transpose();
        proof {
            assert(m@ =~~= ket_of(v));
        }
        m
    }

    /// The transpose: a matrix of swapped shape whose cell (i, j) is this
    /// matrix's cell (j, i).
    pub fn transpose(&self) -> (r: Self)
        requires
            self.wf(),
        ensures
            r.wf(),
            r@.len() == self@[0].len(),
            forall|i: int| 0 <= i < r@.len() ==> #[trigger] r@[i].len() == self@.len(),
            forall|i: int, j: int|
                0 <= i < self@[0].len() && 0 <= j < self@.len() ==> #[trigger] r@[i][j]
                    == self@[j][i],
            r@ == mat_transpose(self@),
    {
        let rows = self.rows();
        let columns = self.columns();
        let mut k: Vec<Vec<u64>> = Vec::new();
        for i in 0..columns
            invariant
                self.wf(),
                rows == self@.len(),
                columns == self@[0].len(),
                k@.len() == i,
                forall|t: int| 0 <= t < i ==> #[trigger] k@[t]@.len() == rows,
                forall|t: int, j: int|
                    0 <= t < i && 0 <= j < rows ==> #[trigger] k@[t]@[j] == self@[j][t],
        {
            let mut row: Vec<u64> = Vec::new();
            for j in 0..rows
                invariant
                    self.wf(),
                    rows == self@.len(),
                    columns == self@[0].len(),
                    i < columns,
                    row@.len() == j,
                    forall|t: int| 0 <= t < j ==> #[trigger] row@[t] == self@[t][i as int],
            {
                assert(self.data@[j as int]@ == self@[j as int]);
                assert(self.data@[j as int]@.len() == columns);
                row.push(self.data[j][i]);
            }
            k.push(row);
        }
        let m = Self { data: k };
        proof {
            assert(m@ =~~= mat_transpose(self@));
        }
        m
    }
}

impl Matrix {
    /// Elementwise binary map: cell (i, j) of the result is `op` applied to
    /// cell (i, j) of this matrix and of `other`. Demands identical shapes
    /// and reports both shapes otherwise.
    pub fn combine(&self, other: &Self, op: BinOp) -> (r: Result<Self, DimensionError>)
        requires
            self.wf(),
            other.wf(),
        ensures
            match r {
                Ok(m) => {
                    &&& self@.len() == other@.len()
                    &&& self@[0].len() == other@[0].len()
                    &&& m.wf()
                    &&& m@.len() == self@.len()
                    &&& forall|i: int| 0 <= i < m@.len() ==> #[trigger] m@[i].len() == self@[0].len()
                    &&& forall|i: int, j: int|
                        0 <= i < self@.len() && 0 <= j < self@[0].len() ==> #[trigger] m@[i][j]
                            == bin_bits(op, self@[i][j], other@[i][j])
                    &&& m@ == mat_bin(op, self@, other@)
                },
                Err(e) => {
                    &&& !(self@.len() == other@.len() && self@[0].len() == other@[0].len())
                    &&& e.rows_a == self@.len()
                    &&& e.columns_a == self@[0].len()
                    &&& e.rows_b == other@.len()
                    &&& e.columns_b == other@[0].len()
                },
            },
    {
        let rows = self.rows();
        let columns = self.columns();
        if rows != other.rows() || columns != other.columns() {
            return Err(DimensionError {
                rows_a: rows,
                columns_a: columns,
                rows_b: other.rows(),
                columns_b: other.columns(),
            });
        }
        let mut k: Vec<Vec<u64>> = Vec::new();
        for i in 0..rows
            invariant
                self.wf(),
                other.wf(),
                rows == self@.len(),
                columns == self@[0].len(),
                rows == other@.len(),
                columns == other@[0].len(),
                k@.len() == i,
                forall|t: int| 0 <= t < i ==> #[trigger] k@[t]@.len() == columns,
                forall|t: int, j: int|
                    0 <= t < i && 0 <= j < columns ==> #[trigger] k@[t]@[j]
                        == bin_bits(op, self@[t][j], other@[t][j]),
        {
            let mut row: Vec<u64> = Vec::new();
            for j in 0..columns
                invariant
                    self.wf(),
                    other.wf(),
                    rows == self@.len(),
                    columns == self@[0].len(),
                    rows == other@.len(),
                    columns == other@[0].len(),
                    i < rows,
                    row@.len() == j,
                    forall|t: int| 0 <= t < j ==> #[trigger] row@[t]
                        == bin_bits(op, self@[i as int][t], other@[i as int][t]),
            {
                assert(self.data@[i as int]@ == self@[i as int]);
                assert(other.data@[i as int]@ == other@[i as int]);
                assert(self.data@[i as int]@.len() == columns);
                assert(other.data@[i as int]@.len() == columns);
                row.push(apply_bin(op, self.data[i][j], other.data[i][j]));
            }
            k.push(row);
        }
        let m = Self { data: k };
        proof {
            assert(m@ =~~= mat_bin(op, self@, other@));
        }
        Ok(m)
    }

    /// In-place elementwise binary map: on success this matrix's cell (i, j)
    /// becomes `op` of its old value and `other`'s cell (i, j). On a shape
    /// mismatch the receiver is unchanged and both shapes are reported.
    pub fn combine_mut(&mut self, other: &Self, op: BinOp) -> (r: Result<(), DimensionError>)
        requires
            old(self).wf(),
            other.wf(),
        ensures
            match r {
                Ok(()) => {
                    &&& old(self)@.len() == other@.len()
                    &&& old(self)@[0].len() == other@[0].len()
                    &&& final(self).wf()
                    &&& final(self)@.len() == old(self)@.len()
                    &&& forall|i: int| 0 <= i < old(self)@.len() ==> #[trigger] final(self)@[i].len()
                        == old(self)@[0].len()
                    &&& forall|i: int, j: int|
                        0 <= i < old(self)@.len() && 0 <= j < old(self)@[0].len()
                            ==> #[trigger] final(self)@[i][j]
                            == bin_bits(op, old(self)@[i][j], other@[i][j])
                    &&& final(self)@ == mat_bin(op, old(self)@, other@)
                },
                Err(e) => {
                    &&& !(old(self)@.len() == other@.len() && old(self)@[0].len()
                        == other@[0].len())
                    &&& *final(self) == *old(self)
                    &&& e.rows_a == old(self)@.len()
                    &&& e.columns_a == old(self)@[0].len()
                    &&& e.rows_b == other@.len()
                    &&& e.columns_b == other@[0].len()
                },
            },
    {
        match self.combine(other, op) {
            Ok(m) => {
                *self = m;
                Ok(())
            },
            Err(e) => Err(e),
        }
    }

    /// Elementwise unary map: cell (i, j) of the result is `op` applied to
    /// cell (i, j) of this matrix.
    pub fn apply(&self, op: UnOp) -> (r: Self)
        requires
            self.wf(),
        ensures
            r.wf(),
            r@.len() == self@.len(),
            forall|i: int| 0 <= i < self@.len() ==> #[trigger] r@[i].len() == self@[0].len(),
            forall|i: int, j: int|
                0 <= i < self@.len() && 0 <= j < self@[0].len() ==> #[trigger] r@[i][j]
                    == un_bits(op, self@[i][j]),
            r@ == mat_un(op, self@),
    {
        let rows = self.rows();
        let columns = self.columns();
        let mut k: Vec<Vec<u64>> = Vec::new();
        for i in 0..rows
            invariant
                self.wf(),
                rows == self@.len(),
                columns == self@[0].len(),
                k@.len() == i,
                forall|t: int| 0 <= t < i ==> #[trigger] k@[t]@.len() == columns,
                forall|t: int, j: int|
                    0 <= t < i && 0 <= j < columns ==> #[trigger] k@[t]@[j]
                        == un_bits(op, self@[t][j]),
        {
            let mut row: Vec<u64> = Vec::new();
            for j in 0..columns
                invariant
                    self.wf(),
                    rows == self@.len(),
                    columns == self@[0].len(),
                    i < rows,
                    row@.len() == j,
                    forall|t: int| 0 <= t < j ==> #[trigger] row@[t]
                        == un_bits(op, self@[i as int][t]),
            {
                assert(self.data@[i as int]@ == self@[i as int]);
                assert(self.data@[i as int]@.len() == columns);
                row.push(apply_un(op, self.data[i][j]));
            }
            k.push(row);
        }
        let m = Self { data: k };
        proof {
            assert(m@ =~~= mat_un(op, self@));
        }
        m
    }

    /// The outer product: a (ket.rows x bra.columns) matrix whose cell
    /// (i, j) is ket's cell (i, 0) times bra's cell (0, j).
    pub fn from_outer_product(ket: &Self, bra: &Self) -> (r: Self)
        requires
            ket.wf(),
            bra.wf(),
        ensures
            r.wf(),
            r@.len() == ket@.len(),
            forall|i: int| 0 <= i < ket@.len() ==> #[trigger] r@[i].len() == bra@[0].len(),
            forall|i: int, j: int|
                0 <= i < ket@.len() && 0 <= j < bra@[0].len() ==> #[trigger] r@[i][j]
                    == fp::mul_bits_of(ket@[i][0], bra@[0][j]),
            r@ == mat_outer(ket@, bra@),
    {
        let rows = ket.rows();
        let columns = bra.columns();
        let mut k: Vec<Vec<u64>> = Vec::new();
        for i in 0..rows
            invariant
                ket.wf(),
                bra.wf(),
                rows == ket@.len(),
                columns == bra@[0].len(),
                k@.len() == i,
                forall|t: int| 0 <= t < i ==> #[trigger] k@[t]@.len() == columns,
                forall|t: int, j: int|
                    0 <= t < i && 0 <= j < columns ==> #[trigger] k@[t]@[j]
                        == fp::mul_bits_of(ket@[t][0], bra@[0][j]),
        {
            let mut row: Vec<u64> = Vec::new();
            for j in 0..columns
                invariant
                    ket.wf(),
                    bra.wf(),
                    rows == ket@.len(),
                    columns == bra@[0].len(),
                    i < rows,
                    row@.len() == j,
                    forall|t: int| 0 <= t < j ==> #[trigger] row@[t]
                        == fp::mul_bits_of(ket@[i as int][0], bra@[0][t]),
            {
                assert(ket.data@[i as int]@ == ket@[i as int]);
                assert(ket.data@[i as int]@.len() == ket@[0].len());
                assert(bra.data@[0]@ == bra@[0]);
                row.push(fp::mul_bits(ket.data[i][0], bra.data[0][j]));
            }
            k.push(row);
        }
        let m = Self { data: k };
        proof {
            assert(m@ =~~= mat_outer(ket@, bra@));
        }
        m
    }

    /// The standard matrix product. Demands that this matrix's column count
    /// equal `other`'s row count, and reports all four dimensions otherwise.
    /// Cell (i, j) of the product accumulates row i dot column j left to
    /// right from 0.0, one rounding per multiply and per add.
    pub fn mult(&self, other: &Self) -> (r: Result<Self, DimensionError>)
        requires
            self.wf(),
            other.wf(),
        ensures
            match r {
                Ok(m) => {
                    &&& self@[0].len() == other@.len()
                    &&& m.wf()
                    &&& m@.len() == self@.len()
                    &&& forall|i: int| 0 <= i < m@.len() ==> #[trigger] m@[i].len()
                        == other@[0].len()
                    &&& forall|i: int, j: int|
                        0 <= i < self@.len() && 0 <= j < other@[0].len() ==> #[trigger] m@[i][j]
                            == dot_bits(self@[i], col_of(other@, j), other@.len())
                    &&& m@ == mat_product(self@, other@)
                    &&& (is_identity_grid(other@) && pos_finite_grid(self@) ==> m@ == self@)
                },
                Err(e) => {
                    &&& self@[0].len() != other@.len()
                    &&& e.rows_a == self@.len()
                    &&& e.columns_a == self@[0].len()
                    &&& e.rows_b == other@.len()
                    &&& e.columns_b == other@[0].len()
                },
            },
    {
        let rows = self.rows();
        let columns = self.columns();
        let other_rows = other.rows();
        let other_columns = other.columns();
        if columns != other_rows {
            return Err(DimensionError {
                rows_a: rows,
                columns_a: columns,
                rows_b: other_rows,
                columns_b: other_columns,
            });
        }
        let ghost hyp: bool = is_identity_grid(other@) && pos_finite_grid(self@);
        let mut k: Vec<Vec<u64>> = Vec::new();
        for i in 0..rows
            invariant
                self.wf(),
                other.wf(),
                rows == self@.len(),
                columns == self@[0].len(),
                other_rows == other@.len(),
                other_columns == other@[0].len(),
                columns == other_rows,
                hyp == (is_identity_grid(other@) && pos_finite_grid(self@)),
                k@.len() == i,
                forall|t: int| 0 <= t < i ==> #[trigger] k@[t]@.len() == other_columns,
                forall|t: int, j: int|
                    0 <= t < i && 0 <= j < other_columns ==> #[trigger] k@[t]@[j]
                        == dot_bits(self@[t], col_of(other@, j), other@.len()),
                hyp ==> (forall|u: int, v: int|
                    0 <= u < i && 0 <= v < other_columns ==> #[trigger] k@[u]@[v] == self@[u][v]),
        {
            let mut row: Vec<u64> = Vec::new();
            for j in 0..other_columns
                invariant
                    self.wf(),
                    other.wf(),
                    rows == self@.len(),
                    columns == self@[0].len(),
                    other_rows == other@.len(),
                    other_columns == other@[0].len(),
                    columns == other_rows,
                    hyp == (is_identity_grid(other@) && pos_finite_grid(self@)),
                    i < rows,
                    row@.len() == j,
                    forall|t: int| 0 <= t < j ==> #[trigger] row@[t]
                        == dot_bits(self@[i as int], col_of(other@, t), other@.len()),
                    hyp ==> (forall|u: int|
                        0 <= u < j ==> #[trigger] row@[u] == self@[i as int][u]),
            {
                let mut acc: u64 = fp::ZERO_BITS;
                for t in 0..columns
                    invariant
                        self.wf(),
                        other.wf(),
                        rows == self@.len(),
                        columns == self@[0].len(),
                        other_rows == other@.len(),
                        other_columns == other@[0].len(),
                        columns == other_rows,
                        hyp == (is_identity_grid(other@) && pos_finite_grid(self@)),
                        i < rows,
                        j < other_columns,
                        acc == dot_bits(self@[i as int], col_of(other@, j as int), t as nat),
                        hyp ==> acc == (if t <= j {
                            fp::ZERO_BITS
                        } else {
                            self@[i as int][j as int]
                        }),
                {
                    assert(self.data@[i as int]@ == self@[i as int]);
                    assert(self.data@[i as int]@.len() == columns);
                    assert(other.data@[t as int]@ == other@[t as int]);
                    assert(other.data@[t as int]@.len() == other_columns);
                    assert(col_of(other@, j as int)[t as int] == other@[t as int][j as int]);
                    proof {
                        if hyp {
                            assert(other_columns == other_rows);
                            assert(fp::is_pos_finite(self@[i as int][t as int]));
                            assert(other@[t as int][j as int] == (if t == j {
                                fp::ONE_BITS
                            } else {
                                fp::ZERO_BITS
                            }));
                            if t > j {
                                assert(fp::is_pos_finite(self@[i as int][j as int]));
                            }
                        }
                    }
                    acc = fp::add_bits(acc, fp::mul_bits(self.data[i][t], other.data[t][j]));
                }
                proof {
                    if hyp {
                        assert(j < columns);
                        assert(acc == self@[i as int][j as int]);
                    }
                }
                row.push(acc);
            }
            k.push(row);
        }
        let m = Self { data: k };
        proof {
            assert(m@ =~~= mat_product(self@, other@));
            if hyp {
                assert(m@ =~~= self@);
            }
        }
        Ok(m)
    }

    /// A left fold of `op` over all cells in row-major order, starting from
    /// the accumulator 0.0.
    pub fn to_scalar(&self, op: BinOp) -> (r: u64)
        requires
            self.wf(),
        ensures
            r == fold_rows_bits(op, fp::ZERO_BITS, self@, self@.len()),
    {
        let rows = self.rows();
        let columns = self.columns();
        let mut acc: u64 = fp::ZERO_BITS;
        for i in 0..rows
            invariant
                self.wf(),
                rows == self@.len(),
                columns == self@[0].len(),
                acc == fold_rows_bits(op, fp::ZERO_BITS, self@, i as nat),
        {
            for j in 0..columns
                invariant
                    self.wf(),
                    rows == self@.len(),
                    columns == self@[0].len(),
                    i < rows,
                    acc == fold_row_bits(
                        op,
                        fold_rows_bits(op, fp::ZERO_BITS, self@, i as nat),
                        self@[i as int],
                        j as nat,
                    ),
            {
                assert(self.data@[i as int]@ == self@[i as int]);
                assert(self.data@[i as int]@.len() == columns);
                acc = apply_bin(op, acc, self.data[i][j]);
            }
            assert(self@[i as int].len() == columns);
        }
        acc
    }

    /// Fills a matrix of the given shape by drawing from the generator in
    /// row-major order, rows outer and columns inner; the order is part of
    /// the contract, so that a seed reproduces the same matrix bit for bit.
    pub fn random(rows: usize, columns: usize, low: u64, high: u64, gen: &mut Xorrng) -> (r: Self)
        requires
            rows >= 1,
            columns >= 1,
            rows * columns <= usize::MAX,
        ensures
            r.wf(),
            r@.len() == rows,
            forall|i: int| 0 <= i < rows ==> #[trigger] r@[i].len() == columns,
            final(gen).state == state_after(old(gen).state, (rows * columns) as nat),
            forall|i: int, j: int|
                0 <= i < rows && 0 <= j < columns ==> #[trigger] r@[i][j] == scaled_bits(
                    state_after(old(gen).state, (i * columns + j + 1) as nat),
                    low,
                    high,
                ),
            r@ == random_grid(old(gen).state, rows as nat, columns as nat, low, high),
    {
        let ghost s0: u64 = gen.state;
        let mut k: Vec<Vec<u64>> = Vec::new();
        for i in 0..rows
            invariant
                rows >= 1,
                columns >= 1,
                rows * columns <= usize::MAX,
                k@.len() == i,
                gen.state == state_after(s0, (i * columns) as nat),
                forall|t: int| 0 <= t < i ==> #[trigger] k@[t]@.len() == columns,
                forall|t: int, j: int|
                    0 <= t < i && 0 <= j < columns ==> #[trigger] k@[t]@[j] == scaled_bits(
                        state_after(s0, (t * columns + j + 1) as nat),
                        low,
                        high,
                    ),
        {
            let mut row: Vec<u64> = Vec::new();
            for j in 0..columns
                invariant
                    rows >= 1,
                    columns >= 1,
                    rows * columns <= usize::MAX,
                    i < rows,
                    row@.len() == j,
                    gen.state == state_after(s0, (i * columns + j) as nat),
                    forall|t: int| 0 <= t < j ==> #[trigger] row@[t] == scaled_bits(
                        state_after(s0, (i * columns + t + 1) as nat),
                        low,
                        high,
                    ),
            {
                proof {
                    assert(i * columns + j < rows * columns) by (nonlinear_arith)
                        requires
                            i < rows,
                            j < columns,
                            0 <= i,
                            0 <= j,
                    ;
                }
                let v = gen.rand_float(low, high);
                row.push(v);
            }
            k.push(row);
            proof {
                assert(i * columns + columns == (i + 1) * columns) by (nonlinear_arith);
            }
        }
        let m = Self { data: k };
        proof {
            assert(m@ =~~= random_grid(s0, rows as nat, columns as nat, low, high));
        }
        m
    }
}

/// The serialized bytes of the first `n` cells of one row: each cell as its
/// bit pattern in 8 little-endian bytes.
pub open spec fn row_bytes(row: Seq<u64>, n: nat) -> Seq<u8>
    decreases n,
{
    if n == 0 {
        Seq::empty()
    } else {
        row_bytes(row, (n - 1) as nat) + spec_u64_to_le_bytes(row[n - 1])
    }
}

/// The serialized bytes of the first `n` rows of a grid, row-major.
pub open spec fn rows_bytes(m: Seq<Seq<u64>>, n: nat) -> Seq<u8>
    decreases n,
{
    if n == 0 {
        Seq::empty()
    } else {
        rows_bytes(m, (n - 1) as nat) + row_bytes(m[n - 1], m[n - 1].len())
    }
}

/// The serialized form of a grid: the row count as an unsigned 64-bit
/// little-endian integer, then the column count likewise, then every cell in
/// row-major order as 8 little-endian bytes each.
pub open spec fn mat_encode(m: Seq<Seq<u64>>) -> Seq<u8> {
    spec_u64_to_le_bytes(m.len() as u64) + spec_u64_to_le_bytes(m[0].len() as u64) + rows_bytes(
        m,
        m.len(),
    )
}

/// The row count announced by a serialized block.
pub open spec fn block_rows(bytes: Seq<u8>) -> nat {
    spec_u64_from_le_bytes(bytes.subrange(0, 8)) as nat
}

/// The column count announced by a serialized block.
pub open spec fn block_columns(bytes: Seq<u8>) -> nat {
    spec_u64_from_le_bytes(bytes.subrange(8, 16)) as nat
}

/// The total length of a serialized block with the announced shape.
pub open spec fn block_len(bytes: Seq<u8>) -> int {
    16 + 8 * (block_rows(bytes) as int) * (block_columns(bytes) as int)
}

/// Whether a buffer begins with a decodable block: a 16-byte header, at
/// least one row and one column, and enough bytes for every announced cell.
pub open spec fn block_valid(bytes: Seq<u8>) -> bool {
    &&& bytes.len() >= 16
    &&& block_rows(bytes) >= 1
    &&& block_columns(bytes) >= 1
    &&& block_len(bytes) <= bytes.len()
}

/// The grid a valid block decodes to: cell (i, j) is read from the 8 bytes
/// at offset 16 + 8 * (i * columns + j).
pub open spec fn block_grid(bytes: Seq<u8>) -> Seq<Seq<u64>> {
    Seq::new(
        block_rows(bytes),
        |i: int|
            Seq::new(
                block_columns(bytes),
                |j: int|
                    spec_u64_from_le_bytes(
                        bytes.subrange(
                            16 + 8 * (i * block_columns(bytes) + j),
                            24 + 8 * (i * block_columns(bytes) + j),
                        ),
                    ),
            ),
    )
}

proof fn lemma_row_bytes_len(row: Seq<u64>, n: nat)
    ensures
        row_bytes(row, n).len() == 8 * n,
    decreases n,
{
    lemma_auto_spec_u64_to_from_le_bytes();
    if n > 0 {
        lemma_row_bytes_len(row, (n - 1) as nat);
    }
}

proof fn lemma_rows_bytes_len(m: Seq<Seq<u64>>, c: nat, n: nat)
    requires
        forall|i: int| 0 <= i < n ==> #[trigger] m[i].len() == c,
    ensures
        rows_bytes(m, n).len() == 8 * (c as int) * (n as int),
    decreases n,
{
    if n == 0 {
        assert(8 * (c as int) * (n as int) == 0) by (nonlinear_arith)
            requires
                n == 0,
        ;
    }
    if n > 0 {
        let prev = (n - 1) as nat;
        lemma_rows_bytes_len(m, c, prev);
        lemma_row_bytes_len(m[n - 1], c);
        assert(m[n - 1].len() == c);
        assert(rows_bytes(m, n) == rows_bytes(m, prev) + row_bytes(m[n - 1], m[n - 1].len()));
        assert(row_bytes(m[n - 1], m[n - 1].len()).len() == 8 * (c as int));
        assert(rows_bytes(m, prev).len() == 8 * (c as int) * (prev as int));
        assert(rows_bytes(m, n).len() == 8 * (c as int) * (prev as int) + 8 * (c as int));
        assert(8 * (c as int) * (prev as int) + 8 * (c as int) == 8 * (c as int) * (n as int))
            by (nonlinear_arith)
            requires
                prev == n - 1 && n >= 1,
        ;
    }
}

proof fn lemma_row_bytes_cell(row: Seq<u64>, n: nat, t: int)
    requires
        0 <= t < n,
    ensures
        row_bytes(row, n).subrange(8 * t, 8 * t + 8) == spec_u64_to_le_bytes(row[t]),
    decreases n,
{
    lemma_auto_spec_u64_to_from_le_bytes();
    lemma_row_bytes_len(row, (n - 1) as nat);
    if t == n - 1 {
        assert(row_bytes(row, n).subrange(8 * t, 8 * t + 8) =~= spec_u64_to_le_bytes(row[t]));
    } else {
        lemma_row_bytes_cell(row, (n - 1) as nat, t);
        assert(row_bytes(row, n).subrange(8 * t, 8 * t + 8) =~= row_bytes(
            row,
            (n - 1) as nat,
        ).subrange(8 * t, 8 * t + 8));
    }
}

proof fn lemma_rows_bytes_row(m: Seq<Seq<u64>>, c: nat, n: nat, i: int)
    requires
        forall|t: int| 0 <= t < n ==> #[trigger] m[t].len() == c,
        0 <= i < n,
    ensures
        rows_bytes(m, n).subrange(8 * c * i, 8 * c * (i + 1)) == row_bytes(m[i], c),
    decreases n,
{
    lemma_rows_bytes_len(m, c, n);
    lemma_rows_bytes_len(m, c, (n - 1) as nat);
    lemma_row_bytes_len(m[n - 1], c);
    if i == n - 1 {
        assert(8 * c * (n - 1) + 8 * c == 8 * (c as int) * (n as int)) by (nonlinear_arith)
            requires
                n >= 1,
        ;
        assert(rows_bytes(m, n).subrange(8 * c * i, 8 * c * (i + 1)) =~= row_bytes(m[i], c));
    } else {
        lemma_rows_bytes_row(m, c, (n - 1) as nat, i);
        assert(0 <= 8 * c * i && 8 * c * i <= 8 * c * (i + 1) && 8 * c * (i + 1) <= 8 * c * (n - 1)
            && 8 * c * (n - 1) <= 8 * (c as int) * (n as int)) by (nonlinear_arith)
            requires
                0 <= c && 0 <= i && i + 1 <= n - 1,
        ;
        assert(rows_bytes(m, n).subrange(8 * c * i, 8 * c * (i + 1)) =~= rows_bytes(
            m,
            (n - 1) as nat,
        ).subrange(8 * c * i, 8 * c * (i + 1)));
    }
}

/// A well-formed grid, serialized and placed before any trailing bytes,
/// decodes back to itself: the block is valid, announces the grid's own
/// shape, spans exactly the encoding's length, and yields the same cells.
pub proof fn lemma_block_round_trip(m: Seq<Seq<u64>>, rest: Seq<u8>)
    requires
        mat_wf(m),
        m.len() <= u64::MAX,
        m[0].len() <= u64::MAX,
    ensures
        block_valid(mat_encode(m) + rest),
        block_rows(mat_encode(m) + rest) == m.len(),
        block_columns(mat_encode(m) + rest) == m[0].len(),
        block_len(mat_encode(m) + rest) == mat_encode(m).len(),
        block_grid(mat_encode(m) + rest) == m,
        (mat_encode(m) + rest).skip(mat_encode(m).len() as int) == rest,
{
    lemma_auto_spec_u64_to_from_le_bytes();
    let r = m.len();
    let c = m[0].len();
    let enc = mat_encode(m);
    let whole = enc + rest;
    lemma_rows_bytes_len(m, c, r);
    assert(enc.len() == 16 + 8 * (c as int) * (r as int));
    assert(8 * (c as int) * (r as int) == 8 * (r as int) * (c as int)) by (nonlinear_arith);
    assert(whole.subrange(0, 8) =~= spec_u64_to_le_bytes(r as u64));
    assert(whole.subrange(8, 16) =~= spec_u64_to_le_bytes(c as u64));
    assert(block_rows(whole) == r);
    assert(block_columns(whole) == c);
    assert(block_valid(whole));
    assert forall|i: int, j: int| 0 <= i < r && 0 <= j < c implies #[trigger] block_grid(
        whole,
    )[i][j] == m[i][j] by {
        let off = 8 * (i * c + j);
        assert(8 * c * i + 8 * j == off && off + 8 <= 8 * (c as int) * (r as int) && 0 <= 8 * c * i
            && 8 * c * i + 8 * c <= 8 * (c as int) * (r as int) && 8 * c * (i + 1) == 8 * c * i + 8
            * c) by (nonlinear_arith)
            requires
                off == 8 * (i * c + j) && 0 <= i < r && 0 <= j < c,
        ;
        lemma_rows_bytes_row(m, c, r, i);
        lemma_row_bytes_cell(m[i], c, j);
        assert(whole.subrange(16 + off, 24 + off) =~= rows_bytes(m, r).subrange(off, off + 8));
        assert(rows_bytes(m, r).subrange(off, off + 8) =~= rows_bytes(m, r).subrange(
            8 * c * i,
            8 * c * (i + 1),
        ).subrange(8 * j, 8 * j + 8));
        assert(block_grid(whole)[i][j] == spec_u64_from_le_bytes(
            whole.subrange(16 + off, 24 + off),
        ));
    }
    assert(block_grid(whole) =~~= m);
    assert(whole.skip(enc.len() as int) =~= rest);
}

/// Serializing a well-formed grid and decoding the result returns the same
/// grid: the matrix byte format round-trips.
pub proof fn lemma_matrix_bytes_round_trip(m: Seq<Seq<u64>>)
    requires
        mat_wf(m),
        m.len() <= u64::MAX,
        m[0].len() <= u64::MAX,
    ensures
        block_valid(mat_encode(m)),
        block_grid(mat_encode(m)) == m,
{
    lemma_block_round_trip(m, Seq::empty());
    assert(mat_encode(m) + Seq::<u8>::empty() =~= mat_encode(m));
}

impl Matrix {
    /// The serialized form of this matrix: row count, column count, then
    /// every cell in row-major order, all little-endian.
    pub fn as_bytes(&self) -> (r: Vec<u8>)
        requires
            self.wf(),
        ensures
            r@ == mat_encode(self@),
    {
        let rows = self.rows();
        let columns = self.columns();
        let mut out: Vec<u8> = u64_to_le_bytes(rows as u64);
        let mut tail: Vec<u8> = u64_to_le_bytes(columns as u64);
        out.append(&mut tail);
        let ghost header: Seq<u8> = spec_u64_to_le_bytes(rows as u64) + spec_u64_to_le_bytes(
            columns as u64,
        );
        for i in 0..rows
            invariant
                self.wf(),
                rows == self@.len(),
                columns == self@[0].len(),
                out@ == header + rows_bytes(self@, i as nat),
        {
            for j in 0..columns
                invariant
                    self.wf(),
                    rows == self@.len(),
                    columns == self@[0].len(),
                    i < rows,
                    out@ == header + rows_bytes(self@, i as nat) + row_bytes(
                        self@[i as int],
                        j as nat,
                    ),
            {
                assert(self.data@[i as int]@ == self@[i as int]);
                assert(self.data@[i as int]@.len() == columns);
                let mut cell: Vec<u8> = u64_to_le_bytes(self.data[i][j]);
                out.append(&mut cell);
                assert(out@ == header + rows_bytes(self@, i as nat) + row_bytes(
                    self@[i as int],
                    (j + 1) as nat,
                ));
            }
            assert(self@[i as int].len() == columns);
            assert(out@ == header + rows_bytes(self@, (i + 1) as nat));
        }
        out
    }

    /// Decodes one block out of `s` starting at `start`, returning the
    /// matrix and the offset just past it. Reports `MalformedPersistedData`
    /// exactly when no valid block starts there: the remaining buffer is
    /// shorter than the header, a dimension is zero, or the announced cells
    /// overrun the buffer.
    pub fn block_from_bytes(s: &[u8], start: usize) -> (r: Result<
        (Self, usize),
        MalformedPersistedData,
    >)
        requires
            start <= s@.len(),
        ensures
            match r {
                Ok(p) => {
                    &&& block_valid(s@.skip(start as int))
                    &&& p.0.wf()
                    &&& p.0@ == block_grid(s@.skip(start as int))
                    &&& p.1 == start + block_len(s@.skip(start as int))
                    &&& p.1 <= s@.len()
                },
                Err(e) => !block_valid(s@.skip(start as int)),
            },
    {
        let ghost suffix: Seq<u8> = s@.skip(start as int);
        let remaining = s.len() - start;
        if remaining < 16 {
            return Err(MalformedPersistedData);
        }
        let rows64 = u64_from_le_bytes(slice_subrange(s, start, start + 8));
        let cols64 = u64_from_le_bytes(slice_subrange(s, start + 8, start + 16));
        proof {
            assert(s@.subrange(start as int, start + 8) =~= suffix.subrange(0, 8));
            assert(s@.subrange(start + 8, start + 16) =~= suffix.subrange(8, 16));
        }
        if rows64 == 0 || cols64 == 0 {
            return Err(MalformedPersistedData);
        }
        proof {
            assert((rows64 as int) * (cols64 as int) <= (u64::MAX as int) * (u64::MAX as int))
                by (nonlinear_arith)
                requires
                    rows64 <= u64::MAX && cols64 <= u64::MAX,
            ;
        }
        let prod: u128 = (rows64 as u128) * (cols64 as u128);
        proof {
            assert(8 * (block_rows(suffix) as int) * (block_columns(suffix) as int) == 8 * ((
            rows64 as int) * (cols64 as int))) by (nonlinear_arith)
                requires
                    block_rows(suffix) == rows64 && block_columns(suffix) == cols64,
            ;
            assert(block_len(suffix) == 16 + 8 * (prod as int));
            assert(suffix.len() == s@.len() - start);
        }
        let cap: u128 = ((usize::MAX - 16) as u128) / 8;
        if prod > cap {
            proof {
                assert(16 + 8 * prod > usize::MAX) by (nonlinear_arith)
                    requires
                        prod > ((usize::MAX - 16) as u128) / 8,
                ;
                assert(!block_valid(suffix));
            }
            return Err(MalformedPersistedData);
        }
        proof {
            assert(8 * prod <= usize::MAX - 16) by (nonlinear_arith)
                requires
                    prod <= ((usize::MAX - 16) as u128) / 8,
            ;
            assert(rows64 as int <= prod && cols64 as int <= prod) by (nonlinear_arith)
                requires
                    prod == (rows64 as int) * (cols64 as int) && rows64 >= 1 && cols64 >= 1,
            ;
        }
        let needed: usize = 16 + 8 * (prod as usize);
        if needed > remaining {
            proof {
                assert(!block_valid(suffix));
            }
            return Err(MalformedPersistedData);
        }
        let rows: usize = rows64 as usize;
        let columns: usize = cols64 as usize;
        proof {
            assert(rows == rows64 as int && columns == cols64 as int);
            assert(rows * columns == prod && rows >= 1 && columns >= 1) by (nonlinear_arith)
                requires
                    prod == (rows64 as int) * (cols64 as int) && rows == rows64 as int && columns
                        == cols64 as int && rows64 >= 1 && cols64 >= 1,
            ;
            assert(start + 16 + 8 * ((rows * columns) as int) <= s@.len());
        }
        let mut k: Vec<Vec<u64>> = Vec::new();
        let mut idx: usize = start + 16;
        proof {
            assert(0 * columns == 0) by (nonlinear_arith);
            assert(idx == start + 16 + 8 * (0 * columns));
        }
        for i in 0..rows
            invariant
                start <= s@.len(),
                s@.len() <= usize::MAX,
                suffix == s@.skip(start as int),
                rows == block_rows(suffix),
                columns == block_columns(suffix),
                rows >= 1,
                columns >= 1,
                start + 16 + 8 * (rows * columns) <= s@.len(),
                idx == start + 16 + 8 * (i * columns),
                k@.len() == i,
                forall|t: int| 0 <= t < i ==> #[trigger] k@[t]@.len() == columns,
                forall|t: int, j: int|
                    0 <= t < i && 0 <= j < columns ==> #[trigger] k@[t]@[j] == block_grid(
                        suffix,
                    )[t][j],
        {
            let mut row: Vec<u64> = Vec::new();
            for j in 0..columns
                invariant
                    start <= s@.len(),
                    s@.len() <= usize::MAX,
                    suffix == s@.skip(start as int),
                    rows == block_rows(suffix),
                    columns == block_columns(suffix),
                    rows >= 1,
                    columns >= 1,
                    i < rows,
                    start + 16 + 8 * (rows * columns) <= s@.len(),
                    idx == start + 16 + 8 * (i * columns + j),
                    row@.len() == j,
                    forall|t: int| 0 <= t < j ==> #[trigger] row@[t] == block_grid(
                        suffix,
                    )[i as int][t],
            {
                proof {
                    assert(i * columns + j + 1 <= rows * columns) by (nonlinear_arith)
                        requires
                            0 <= i && 0 <= j && i < rows && j < columns,
                    ;
                }
                let cell = u64_from_le_bytes(slice_subrange(s, idx, idx + 8));
                proof {
                    let off = 8 * (i * columns + j);
                    assert(s@.subrange(idx as int, idx + 8) =~= suffix.subrange(
                        16 + off,
                        24 + off,
                    ));
                    assert(block_grid(suffix)[i as int][j as int] == spec_u64_from_le_bytes(
                        suffix.subrange(16 + off, 24 + off),
                    ));
                }
                row.push(cell);
                idx = idx + 8;
            }
            k.push(row);
            proof {
                assert(i * columns + columns == (i + 1) * columns) by (nonlinear_arith);
            }
        }
        let m = Self { data: k };
        proof {
            assert(m@ =~~= block_grid(suffix));
            assert(idx == start + 16 + 8 * (rows * columns));
        }
        Ok((m, idx))
    }

    /// Decodes a serialized matrix from the front of `bytes`; bytes past the
    /// announced cells are ignored. Reports `MalformedPersistedData` exactly
    /// when the buffer does not begin with a valid block.
    pub fn from_bytes(bytes: Vec<u8>) -> (r: Result<Self, MalformedPersistedData>)
        ensures
            match r {
                Ok(m) => {
                    &&& block_valid(bytes@)
                    &&& m.wf()
                    &&& m@ == block_grid(bytes@)
                },
                Err(e) => !block_valid(bytes@),
            },
    {
        proof {
            assert(bytes@.skip(0) =~= bytes@);
        }
        match Self::block_from_bytes(bytes.as_slice(), 0) {
            Ok(p) => Ok(p.0),
            Err(e) => Err(e),
        }
    }
}

} // verus!
