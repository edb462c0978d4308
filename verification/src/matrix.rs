//! Integer matrices: the `nalgebra` storage, its mathematical model, and the
//! primitive accesses everything else is built from.

use vstd::prelude::*;

verus! {

/// The mathematical model of a matrix: its shape and its entries by row.
#[verifier::ext_equal]
pub struct Mat {
    pub rows: nat,
    pub cols: nat,
    pub e: Seq<Seq<int>>,
}

impl Mat {
    /// The `rows` by `cols` matrix whose entry at `(i, j)` is `f(i, j)`.
    pub open spec fn new(rows: nat, cols: nat, f: spec_fn(int, int) -> int) -> Mat {
        Mat { rows, cols, e: Seq::new(rows, |i: int| Seq::new(cols, |j: int| f(i, j))) }
    }

    /// Every row is present and has `cols` entries.
    pub open spec fn wf(self) -> bool {
        &&& self.e.len() == self.rows
        &&& forall|i: int| 0 <= i < self.rows ==> (#[trigger] self.e[i]).len() == self.cols
    }

    /// `(i, j)` names an entry of the matrix.
    pub open spec fn has(self, i: int, j: int) -> bool {
        0 <= i < self.rows && 0 <= j < self.cols
    }

    /// The matrix with the entry at `(i, j)` replaced by `v`.
    pub open spec fn set(self, i: int, j: int, v: int) -> Mat {
        Mat { rows: self.rows, cols: self.cols, e: self.e.update(i, self.e[i].update(j, v)) }
    }

    /// The matrix of the given shape with every entry zero.
    pub open spec fn zeros(rows: nat, cols: nat) -> Mat {
        Mat::new(rows, cols, |i: int, j: int| 0int)
    }

    /// The square identity matrix of order `n`.
    pub open spec fn identity(n: nat) -> Mat {
        Mat::new(n, n, |i: int, j: int| if i == j { 1int } else { 0int })
    }

    /// Every entry is zero.
    pub open spec fn is_zero(self) -> bool {
        forall|i: int, j: int| self.has(i, j) ==> (#[trigger] self.e[i][j]) == 0
    }

    /// Column `j`, read top to bottom.
    pub open spec fn col(self, j: int) -> Seq<int> {
        Seq::new(self.rows, |i: int| self.e[i][j])
    }
}

/// An `i128` matrix held in a column-major `nalgebra::DMatrix`.
///
/// Nothing of the storage is visible to the verifier; what it holds is
/// named by [`stored_nrows`], [`stored_ncols`] and [`stored_entries`], and
/// the view `m@` assembles these into a [`Mat`].
#[verifier::external_body]
#[derive(Debug, PartialEq, Eq)]
pub struct IntMatrix {
    inner: nalgebra::DMatrix<i128>,
}

/// The number of rows of a stored matrix.
pub uninterp spec fn stored_nrows(m: IntMatrix) -> nat;

/// The number of columns of a stored matrix.
pub uninterp spec fn stored_ncols(m: IntMatrix) -> nat;

/// The entries of a stored matrix, keyed by (row, column).
pub uninterp spec fn stored_entries(m: IntMatrix) -> Map<(int, int), i128>;

impl View for IntMatrix {
    type V = Mat;

    open spec fn view(&self) -> Mat {
        Mat::new(
            stored_nrows(*self),
            stored_ncols(*self),
            |i: int, j: int| stored_entries(*self)[(i, j)] as int,
        )
    }
}

/// `DMatrix::zeros`: a matrix of the given shape filled with zeros. The
/// constructor multiplies the two dimensions in `usize`, so the product
/// has to fit.
#[verifier::external_body]
fn dm_zeros(nrows: usize, ncols: usize) -> (m: IntMatrix)
    requires
        nrows * ncols <= usize::MAX,
    ensures
        stored_nrows(m) == nrows,
        stored_ncols(m) == ncols,
        forall|i: int, j: int|
            0 <= i < nrows && 0 <= j < ncols ==> (#[trigger] stored_entries(m)[(i, j)]) == 0,
{
    IntMatrix { inner: nalgebra::DMatrix::zeros(nrows, ncols) }
}

/// `DMatrix::identity` with equal dimensions: zeros, with ones on the
/// diagonal. Built on the zero matrix, so the same size limit applies.
#[verifier::external_body]
fn dm_identity(n: usize) -> (m: IntMatrix)
    requires
        n * n <= usize::MAX,
    ensures
        stored_nrows(m) == n,
        stored_ncols(m) == n,
        forall|i: int, j: int|
            0 <= i < n && 0 <= j < n ==> (#[trigger] stored_entries(m)[(i, j)]) == (if i == j {
                1i128
            } else {
                0i128
            }),
{
    IntMatrix { inner: nalgebra::DMatrix::identity(n, n) }
}

/// `Matrix::nrows`: the row count of the matrix. The storage is one
/// vector of rows times columns entries, so that product is a `usize`.
#[verifier::external_body]
fn dm_nrows(m: &IntMatrix) -> (r: usize)
    ensures
        r == stored_nrows(*m),
        r * stored_ncols(*m) <= usize::MAX,
{
    m.inner.nrows()
}

/// `Matrix::ncols`: the column count of the matrix.
#[verifier::external_body]
fn dm_ncols(m: &IntMatrix) -> (c: usize)
    ensures
        c == stored_ncols(*m),
{
    m.inner.ncols()
}

/// `Index<(usize, usize)>` of `Matrix`: the entry at row `i`, column `j`.
/// The index panics outside the shape, so both bounds are required.
#[verifier::external_body]
fn dm_get(m: &IntMatrix, i: usize, j: usize) -> (v: i128)
    requires
        i < stored_nrows(*m),
        j < stored_ncols(*m),
    ensures
        v == stored_entries(*m)[(i as int, j as int)],
{
    m.inner[(i, j)]
}

/// `IndexMut<(usize, usize)>` of `Matrix`: overwrites the entry at row `i`,
/// column `j` and leaves the shape and every other entry as they were.
#[verifier::external_body]
fn dm_set(m: &mut IntMatrix, i: usize, j: usize, v: i128)
    requires
        i < stored_nrows(*old(m)),
        j < stored_ncols(*old(m)),
    ensures
        stored_nrows(*final(m)) == stored_nrows(*old(m)),
        stored_ncols(*final(m)) == stored_ncols(*old(m)),
        stored_entries(*final(m)) == stored_entries(*old(m)).insert((i as int, j as int), v),
{
    m.inner[(i, j)] = v;
}

/// `Clone` of `DMatrix`: a matrix of the same shape with the same entries.
#[verifier::external_body]
fn dm_clone(m: &IntMatrix) -> (r: IntMatrix)
    ensures
        stored_nrows(r) == stored_nrows(*m),
        stored_ncols(r) == stored_ncols(*m),
        stored_entries(r) == stored_entries(*m),
{
    IntMatrix { inner: m.inner.clone() }
}

/// The view of a stored matrix is well formed, and its entries are `i128`s.
pub proof fn lemma_view_wf(m: IntMatrix)
    ensures
        m@.wf(),
        forall|i: int, j: int|
            m@.has(i, j) ==> i128::MIN <= (#[trigger] m@.e[i][j]) <= i128::MAX,
{
}

impl IntMatrix {
    /// The number of rows. Rows times columns always fits in `usize`.
    pub fn nrows(&self) -> (r: usize)
        ensures
            r == self@.rows,
            self@.rows * self@.cols <= usize::MAX,
    {
        dm_nrows(self)
    }

    /// The number of columns.
    pub fn ncols(&self) -> (c: usize)
        ensures
            c == self@.cols,
    {
        dm_ncols(self)
    }

    /// The entry at row `i`, column `j`.
    pub fn get(&self, i: usize, j: usize) -> (v: i128)
        requires
            self@.has(i as int, j as int),
        ensures
            v == self@.e[i as int][j as int],
    {
        dm_get(self, i, j)
    }

    /// Overwrites the entry at row `i`, column `j`.
    pub fn set(&mut self, i: usize, j: usize, v: i128)
        requires
            old(self)@.has(i as int, j as int),
        ensures
            final(self)@ == old(self)@.set(i as int, j as int, v as int),
    {
        dm_set(self, i, j, v);
        proof {
            let a = old(self)@.set(i as int, j as int, v as int);
            let b = self@;
            assert forall|x: int, y: int| b.has(x, y) implies #[trigger] b.e[x][y] == a.e[x][y] by {
                if x == i && y == j {
                } else {
                    assert((x, y) != (i as int, j as int));
                }
            }
            assert(b =~~= a);
        }
    }

    /// A matrix of the given shape with every entry zero.
    pub fn zeros(nrows: usize, ncols: usize) -> (m: IntMatrix)
        requires
            nrows * ncols <= usize::MAX,
        ensures
            m@ == Mat::zeros(nrows as nat, ncols as nat),
    {
        let m = dm_zeros(nrows, ncols);
        assert(m@ =~~= Mat::zeros(nrows as nat, ncols as nat));
        m
    }

    /// The identity matrix of order `n`.
    pub fn identity(n: usize) -> (m: IntMatrix)
        requires
            n * n <= usize::MAX,
        ensures
            m@ == Mat::identity(n as nat),
    {
        let m = dm_identity(n);
        assert(m@ =~~= Mat::identity(n as nat));
        m
    }

    /// A copy with the same shape and entries.
    pub fn copy(&self) -> (m: IntMatrix)
        ensures
            m@ == self@,
    {
        let m = dm_clone(self);
        assert(m@ =~~= self@);
        m
    }

    /// The matrix of the given shape whose rows are laid out one after
    /// the other in `data`.
    pub fn from_row_slice(nrows: usize, ncols: usize, data: &[i128]) -> (m: IntMatrix)
        requires
            data@.len() == nrows * ncols,
        ensures
            m@ == Mat::new(nrows as nat, ncols as nat, |i: int, j: int| data@[i * ncols + j] as int),
    {
        let total: usize = data.len();
        assert(nrows * ncols == total);
        let mut m = IntMatrix::zeros(nrows, ncols);
        let mut idx: usize = 0;
        let mut i: usize = 0;
        while i < nrows
            invariant
                data@.len() == nrows * ncols,
                i <= nrows,
                idx == i * ncols,
                m@.rows == nrows,
                m@.cols == ncols,
                forall|x: int, y: int|
                    m@.has(x, y) && x < i ==> #[trigger] m@.e[x][y] == data@[x * ncols + y],
            decreases nrows - i,
        {
            let mut j: usize = 0;
            proof {
                assert((i + 1) * ncols == i * ncols + ncols) by (nonlinear_arith);
                assert((i + 1) * ncols <= nrows * ncols) by (nonlinear_arith)
                    requires
                        i + 1 <= nrows,
                ;
            }
            while j < ncols
                invariant
                    data@.len() == nrows * ncols,
                    i < nrows,
                    j <= ncols,
                    idx == i * ncols + j,
                    i * ncols + ncols <= nrows * ncols,
                    m@.rows == nrows,
                    m@.cols == ncols,
                    forall|x: int, y: int|
                        m@.has(x, y) && (x < i || (x == i && y < j)) ==> #[trigger] m@.e[x][y]
                            == data@[x * ncols + y],
                decreases ncols - j,
            {
                let v: i128 = data[idx];
                m.set(i, j, v);
                idx += 1;
                j += 1;
            }
            i += 1;
        }
        assert(m@ =~~= Mat::new(
            nrows as nat,
            ncols as nat,
            |i: int, j: int| data@[i * ncols + j] as int,
        ));
        m
    }
}

} // verus!
