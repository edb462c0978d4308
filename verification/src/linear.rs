//! Matrix products and elementary row and column operations on the
//! mathematical model, with the algebra that relates them.

use vstd::prelude::*;
use crate::matrix::Mat;

verus! {

/// The sum of `u[l] * v[l]` over `0 <= l < n`.
pub open spec fn dot(u: Seq<int>, v: Seq<int>, n: nat) -> int
    decreases n,
{
    if n == 0 {
        0
    } else {
        dot(u, v, (n - 1) as nat) + u[n - 1] * v[n - 1]
    }
}

/// The index that a transposition of `i` and `k` sends `a` to.
pub open spec fn swapped(a: int, i: int, k: int) -> int {
    if a == i {
        k
    } else if a == k {
        i
    } else {
        a
    }
}

impl Mat {
    /// The matrix product `self * o`.
    pub open spec fn mul(self, o: Mat) -> Mat {
        Mat::new(self.rows, o.cols, |i: int, j: int| dot(self.e[i], o.col(j), self.cols))
    }

    /// Rows `i` and `k` exchanged.
    pub open spec fn swap_rows(self, i: int, k: int) -> Mat {
        Mat::new(self.rows, self.cols, |a: int, b: int| self.e[swapped(a, i, k)][b])
    }

    /// Columns `j` and `k` exchanged.
    pub open spec fn swap_cols(self, j: int, k: int) -> Mat {
        Mat::new(self.rows, self.cols, |a: int, b: int| self.e[a][swapped(b, j, k)])
    }

    /// Row `i` replaced by itself plus `c` times row `k`.
    pub open spec fn add_row_multiple(self, i: int, k: int, c: int) -> Mat {
        Mat::new(
            self.rows,
            self.cols,
            |a: int, b: int|
                if a == i {
                    self.e[a][b] + c * self.e[k][b]
                } else {
                    self.e[a][b]
                },
        )
    }

    /// Column `j` replaced by itself plus `c` times column `k`.
    pub open spec fn add_col_multiple(self, j: int, k: int, c: int) -> Mat {
        Mat::new(
            self.rows,
            self.cols,
            |a: int, b: int|
                if b == j {
                    self.e[a][b] + c * self.e[a][k]
                } else {
                    self.e[a][b]
                },
        )
    }

    /// Row `k` negated.
    pub open spec fn negate_row(self, k: int) -> Mat {
        Mat::new(
            self.rows,
            self.cols,
            |a: int, b: int|
                if a == k {
                    -self.e[a][b]
                } else {
                    self.e[a][b]
                },
        )
    }

    /// Column `k` negated.
    pub open spec fn negate_col(self, k: int) -> Mat {
        Mat::new(
            self.rows,
            self.cols,
            |a: int, b: int|
                if b == k {
                    -self.e[a][b]
                } else {
                    self.e[a][b]
                },
        )
    }

    /// `self` times `o` is the identity, with the shapes that this needs.
    pub open spec fn is_inverse_pair(self, o: Mat) -> bool {
        &&& self.wf()
        &&& o.wf()
        &&& self.cols == o.rows
        &&& self.rows == o.cols
        &&& self.mul(o) == Mat::identity(self.rows)
    }

    /// `self` and `o` are square and inverse to each other: their product
    /// is the identity in either order.
    pub open spec fn is_inverse_of(self, o: Mat) -> bool {
        &&& self.rows == self.cols
        &&& self.is_inverse_pair(o)
        &&& o.is_inverse_pair(self)
    }

    /// `self` is unimodular: a square integer matrix with an integer inverse.
    pub open spec fn is_unimodular(self) -> bool {
        exists|o: Mat| #[trigger] self.is_inverse_of(o)
    }
}

/// Two dot products over pointwise equal operands agree.
pub proof fn lemma_dot_congruent(u: Seq<int>, v: Seq<int>, u2: Seq<int>, v2: Seq<int>, n: nat)
    requires
        forall|l: int| 0 <= l < n ==> u[l] == u2[l],
        forall|l: int| 0 <= l < n ==> v[l] == v2[l],
    ensures
        dot(u, v, n) == dot(u2, v2, n),
    decreases n,
{
    if n > 0 {
        lemma_dot_congruent(u, v, u2, v2, (n - 1) as nat);
    }
}

/// The dot product is linear in its left operand.
pub proof fn lemma_dot_linear_left(
    u: Seq<int>,
    w: Seq<int>,
    uw: Seq<int>,
    v: Seq<int>,
    s: int,
    c: int,
    n: nat,
)
    requires
        forall|l: int| 0 <= l < n ==> uw[l] == s * u[l] + c * w[l],
    ensures
        dot(uw, v, n) == s * dot(u, v, n) + c * dot(w, v, n),
    decreases n,
{
    if n > 0 {
        let m = (n - 1) as nat;
        lemma_dot_linear_left(u, w, uw, v, s, c, m);
        let a = u[n - 1];
        let b = w[n - 1];
        let d = v[n - 1];
        let x = dot(u, v, m);
        let y = dot(w, v, m);
        assert((s * a + c * b) * d == s * (a * d) + c * (b * d)) by (nonlinear_arith);
        assert(s * (x + a * d) == s * x + s * (a * d)) by (nonlinear_arith);
        assert(c * (y + b * d) == c * y + c * (b * d)) by (nonlinear_arith);
    }
}

/// The dot product is linear in its right operand.
pub proof fn lemma_dot_linear_right(
    u: Seq<int>,
    v: Seq<int>,
    w: Seq<int>,
    vw: Seq<int>,
    s: int,
    c: int,
    n: nat,
)
    requires
        forall|l: int| 0 <= l < n ==> vw[l] == s * v[l] + c * w[l],
    ensures
        dot(u, vw, n) == s * dot(u, v, n) + c * dot(u, w, n),
    decreases n,
{
    if n > 0 {
        let m = (n - 1) as nat;
        lemma_dot_linear_right(u, v, w, vw, s, c, m);
        let a = v[n - 1];
        let b = w[n - 1];
        let d = u[n - 1];
        let x = dot(u, v, m);
        let y = dot(u, w, m);
        assert(d * (s * a + c * b) == s * (d * a) + c * (d * b)) by (nonlinear_arith);
        assert(s * (x + d * a) == s * x + s * (d * a)) by (nonlinear_arith);
        assert(c * (y + d * b) == c * y + c * (d * b)) by (nonlinear_arith);
    }
}

/// A product of well-formed factors is well formed and has the outer shape.
pub proof fn lemma_mul_shape(a: Mat, b: Mat)
    ensures
        a.mul(b).wf(),
        a.mul(b).rows == a.rows,
        a.mul(b).cols == b.cols,
{
}

/// Exchanging two rows of the left factor exchanges them in the product.
pub proof fn lemma_swap_rows_mul(a: Mat, b: Mat, i: int, k: int)
    requires
        a.wf(),
        0 <= i < a.rows,
        0 <= k < a.rows,
    ensures
        a.swap_rows(i, k).mul(b) == a.mul(b).swap_rows(i, k),
{
    let l = a.swap_rows(i, k).mul(b);
    let r = a.mul(b).swap_rows(i, k);
    assert forall|x: int, y: int| l.has(x, y) implies #[trigger] l.e[x][y] == r.e[x][y] by {
        assert(a.swap_rows(i, k).e[x] =~= a.e[swapped(x, i, k)]);
    }
    assert(l =~~= r);
}

/// Exchanging two columns of the right factor exchanges them in the product.
pub proof fn lemma_swap_cols_mul(a: Mat, b: Mat, j: int, k: int)
    requires
        b.wf(),
        0 <= j < b.cols,
        0 <= k < b.cols,
    ensures
        a.mul(b.swap_cols(j, k)) == a.mul(b).swap_cols(j, k),
{
    let l = a.mul(b.swap_cols(j, k));
    let r = a.mul(b).swap_cols(j, k);
    assert forall|x: int, y: int| l.has(x, y) implies #[trigger] l.e[x][y] == r.e[x][y] by {
        assert(b.swap_cols(j, k).col(y) =~= b.col(swapped(y, j, k)));
    }
    assert(l =~~= r);
}

/// Adding a multiple of one row to another in the left factor does the
/// same to the product.
pub proof fn lemma_add_row_mul(a: Mat, b: Mat, i: int, k: int, c: int)
    requires
        a.wf(),
        0 <= i < a.rows,
        0 <= k < a.rows,
    ensures
        a.add_row_multiple(i, k, c).mul(b) == a.mul(b).add_row_multiple(i, k, c),
{
    let a2 = a.add_row_multiple(i, k, c);
    let l = a2.mul(b);
    let r = a.mul(b).add_row_multiple(i, k, c);
    assert forall|x: int, y: int| l.has(x, y) implies #[trigger] l.e[x][y] == r.e[x][y] by {
        if x == i {
            lemma_dot_linear_left(a.e[i], a.e[k], a2.e[i], b.col(y), 1, c, a.cols);
        } else {
            assert(a2.e[x] =~= a.e[x]);
        }
    }
    assert(l =~~= r);
}

/// Adding a multiple of one column to another in the right factor does
/// the same to the product.
pub proof fn lemma_add_col_mul(a: Mat, b: Mat, j: int, k: int, c: int)
    requires
        b.wf(),
        a.cols == b.rows,
        0 <= j < b.cols,
        0 <= k < b.cols,
    ensures
        a.mul(b.add_col_multiple(j, k, c)) == a.mul(b).add_col_multiple(j, k, c),
{
    let b2 = b.add_col_multiple(j, k, c);
    let l = a.mul(b2);
    let r = a.mul(b).add_col_multiple(j, k, c);
    assert forall|x: int, y: int| l.has(x, y) implies #[trigger] l.e[x][y] == r.e[x][y] by {
        if y == j {
            lemma_dot_linear_right(a.e[x], b.col(j), b.col(k), b2.col(j), 1, c, a.cols);
        } else {
            assert(b2.col(y) =~= b.col(y));
        }
    }
    assert(l =~~= r);
}

/// Negating a row of the left factor negates it in the product.
pub proof fn lemma_negate_row_mul(a: Mat, b: Mat, k: int)
    requires
        a.wf(),
        0 <= k < a.rows,
    ensures
        a.negate_row(k).mul(b) == a.mul(b).negate_row(k),
{
    let a2 = a.negate_row(k);
    let l = a2.mul(b);
    let r = a.mul(b).negate_row(k);
    assert forall|x: int, y: int| l.has(x, y) implies #[trigger] l.e[x][y] == r.e[x][y] by {
        if x == k {
            lemma_dot_linear_left(a.e[k], a.e[k], a2.e[k], b.col(y), -1, 0, a.cols);
        } else {
            assert(a2.e[x] =~= a.e[x]);
        }
    }
    assert(l =~~= r);
}

/// Negating a column of the right factor negates it in the product.
pub proof fn lemma_negate_col_mul(a: Mat, b: Mat, k: int)
    requires
        b.wf(),
        a.cols == b.rows,
        0 <= k < b.cols,
    ensures
        a.mul(b.negate_col(k)) == a.mul(b).negate_col(k),
{
    let b2 = b.negate_col(k);
    let l = a.mul(b2);
    let r = a.mul(b).negate_col(k);
    assert forall|x: int, y: int| l.has(x, y) implies #[trigger] l.e[x][y] == r.e[x][y] by {
        if y == k {
            lemma_dot_linear_right(a.e[x], b.col(k), b.col(k), b2.col(k), -1, 0, a.cols);
        } else {
            assert(b2.col(y) =~= b.col(y));
        }
    }
    assert(l =~~= r);
}

/// A row exchange on the left factor and the same column exchange on the
/// right factor keep an inverse pair.
pub proof fn lemma_pair_swap(x: Mat, y: Mat, i: int, k: int)
    requires
        x.is_inverse_pair(y),
        0 <= i < x.rows,
        0 <= k < x.rows,
    ensures
        x.swap_rows(i, k).is_inverse_pair(y.swap_cols(i, k)),
{
    let y2 = y.swap_cols(i, k);
    lemma_swap_rows_mul(x, y2, i, k);
    lemma_swap_cols_mul(x, y, i, k);
    let id = Mat::identity(x.rows);
    assert(id.swap_cols(i, k).swap_rows(i, k) =~~= id);
}

/// Adding `c` times row `k` to row `i` on the left and subtracting `c`
/// times column `i` from column `k` on the right keep an inverse pair.
pub proof fn lemma_pair_add(x: Mat, y: Mat, i: int, k: int, c: int)
    requires
        x.is_inverse_pair(y),
        0 <= i < x.rows,
        0 <= k < x.rows,
        i != k,
    ensures
        x.add_row_multiple(i, k, c).is_inverse_pair(y.add_col_multiple(k, i, -c)),
{
    let y2 = y.add_col_multiple(k, i, -c);
    lemma_add_row_mul(x, y2, i, k, c);
    lemma_add_col_mul(x, y, k, i, -c);
    let id = Mat::identity(x.rows);
    let m = id.add_col_multiple(k, i, -c).add_row_multiple(i, k, c);
    assert forall|a: int, b: int| m.has(a, b) implies #[trigger] m.e[a][b] == id.e[a][b] by {
        assert(c * 0 == 0);
        assert(c * 1 == c);
        assert((-c) * 0 == 0);
        assert((-c) * 1 == -c);
    }
    assert(m =~~= id);
}

/// Negating a row on the left and the same column on the right keep an
/// inverse pair.
pub proof fn lemma_pair_negate(x: Mat, y: Mat, k: int)
    requires
        x.is_inverse_pair(y),
        0 <= k < x.rows,
    ensures
        x.negate_row(k).is_inverse_pair(y.negate_col(k)),
{
    let y2 = y.negate_col(k);
    lemma_negate_row_mul(x, y2, k);
    lemma_negate_col_mul(x, y, k);
    let id = Mat::identity(x.rows);
    assert(id.negate_col(k).negate_row(k) =~~= id);
}

/// The dot product with row `i` of an identity matrix picks entry `i`.
pub proof fn lemma_dot_unit_left(u: Seq<int>, v: Seq<int>, i: int, n: nat)
    requires
        forall|l: int| 0 <= l < n ==> u[l] == (if l == i { 1int } else { 0int }),
    ensures
        dot(u, v, n) == (if 0 <= i < n { v[i] } else { 0 }),
    decreases n,
{
    if n > 0 {
        lemma_dot_unit_left(u, v, i, (n - 1) as nat);
        assert(1 * v[n - 1] == v[n - 1]);
        assert(0 * v[n - 1] == 0);
    }
}

/// The dot product with column `i` of an identity matrix picks entry `i`.
pub proof fn lemma_dot_unit_right(u: Seq<int>, v: Seq<int>, i: int, n: nat)
    requires
        forall|l: int| 0 <= l < n ==> v[l] == (if l == i { 1int } else { 0int }),
    ensures
        dot(u, v, n) == (if 0 <= i < n { u[i] } else { 0 }),
    decreases n,
{
    if n > 0 {
        lemma_dot_unit_right(u, v, i, (n - 1) as nat);
        assert(u[n - 1] * 1 == u[n - 1]);
        assert(u[n - 1] * 0 == 0);
    }
}

/// The identity is neutral on the left.
pub proof fn lemma_identity_mul(a: Mat)
    requires
        a.wf(),
    ensures
        Mat::identity(a.rows).mul(a) == a,
{
    let id = Mat::identity(a.rows);
    let l = id.mul(a);
    assert forall|x: int, y: int| l.has(x, y) implies #[trigger] l.e[x][y] == a.e[x][y] by {
        lemma_dot_unit_left(id.e[x], a.col(y), x, a.rows);
    }
    assert(l =~~= a);
}

/// The identity is neutral on the right.
pub proof fn lemma_mul_identity(a: Mat)
    requires
        a.wf(),
    ensures
        a.mul(Mat::identity(a.cols)) == a,
{
    let id = Mat::identity(a.cols);
    let l = a.mul(id);
    assert forall|x: int, y: int| l.has(x, y) implies #[trigger] l.e[x][y] == a.e[x][y] by {
        lemma_dot_unit_right(a.e[x], id.col(y), y, a.cols);
    }
    assert(l =~~= a);
}

/// Changing one entry of the left operand changes the dot product by
/// the change times the entry opposite.
pub proof fn lemma_dot_change_left(u: Seq<int>, u2: Seq<int>, v: Seq<int>, at: int, n: nat)
    requires
        0 <= at < n,
        forall|l: int| 0 <= l < n && l != at ==> u2[l] == u[l],
    ensures
        dot(u2, v, n) == dot(u, v, n) + (u2[at] - u[at]) * v[at],
    decreases n,
{
    let m = (n - 1) as nat;
    if at == n - 1 {
        lemma_dot_congruent(u2, v, u, v, m);
        assert(u2[at] * v[at] == u[at] * v[at] + (u2[at] - u[at]) * v[at]) by (nonlinear_arith);
    } else {
        lemma_dot_change_left(u, u2, v, at, m);
    }
}

/// Changing one entry of the right operand changes the dot product by
/// the entry opposite times the change.
pub proof fn lemma_dot_change_right(u: Seq<int>, v: Seq<int>, v2: Seq<int>, at: int, n: nat)
    requires
        0 <= at < n,
        forall|l: int| 0 <= l < n && l != at ==> v2[l] == v[l],
    ensures
        dot(u, v2, n) == dot(u, v, n) + u[at] * (v2[at] - v[at]),
    decreases n,
{
    let m = (n - 1) as nat;
    if at == n - 1 {
        lemma_dot_congruent(u, v2, u, v, m);
        assert(u[at] * v2[at] == u[at] * v[at] + u[at] * (v2[at] - v[at])) by (nonlinear_arith);
    } else {
        lemma_dot_change_right(u, v, v2, at, m);
    }
}

/// Exchanging the same two entries in both operands keeps the dot product.
pub proof fn lemma_dot_swapped(
    u: Seq<int>,
    v: Seq<int>,
    u2: Seq<int>,
    v2: Seq<int>,
    i: int,
    k: int,
    n: nat,
)
    requires
        0 <= i < n,
        0 <= k < n,
        forall|l: int| 0 <= l < n ==> u2[l] == u[swapped(l, i, k)],
        forall|l: int| 0 <= l < n ==> v2[l] == v[swapped(l, i, k)],
    ensures
        dot(u2, v2, n) == dot(u, v, n),
{
    if i == k {
        lemma_dot_congruent(u2, v2, u, v, n);
    } else {
        let u1 = Seq::new(n, |l: int| if l == i { u[k] } else { u[l] });
        let v1 = Seq::new(n, |l: int| if l == i { v[k] } else { v[l] });
        lemma_dot_change_left(u, u1, v, i, n);
        lemma_dot_change_left(u1, u2, v, k, n);
        lemma_dot_change_right(u2, v, v1, i, n);
        lemma_dot_change_right(u2, v1, v2, k, n);
        let (a, b, c, d) = (u[i], u[k], v[i], v[k]);
        assert((b - a) * c + (a - b) * d + b * (d - c) + a * (c - d) == 0) by (nonlinear_arith);
    }
}

/// A column exchange on the left factor undoes the same row exchange
/// on the right factor.
pub proof fn lemma_cancel_swap(y: Mat, x: Mat, i: int, k: int)
    requires
        y.wf(),
        x.wf(),
        y.cols == x.rows,
        0 <= i < y.cols,
        0 <= k < y.cols,
    ensures
        y.swap_cols(i, k).mul(x.swap_rows(i, k)) == y.mul(x),
{
    let y2 = y.swap_cols(i, k);
    let x2 = x.swap_rows(i, k);
    let l = y2.mul(x2);
    let r = y.mul(x);
    assert forall|a: int, b: int| l.has(a, b) implies #[trigger] l.e[a][b] == r.e[a][b] by {
        lemma_dot_swapped(y.e[a], x.col(b), y2.e[a], x2.col(b), i, k, y.cols);
    }
    assert(l =~~= r);
}

/// Subtracting `c` times column `i` from column `k` on the left undoes
/// adding `c` times row `k` to row `i` on the right.
pub proof fn lemma_cancel_add(y: Mat, x: Mat, i: int, k: int, c: int)
    requires
        y.wf(),
        x.wf(),
        y.cols == x.rows,
        0 <= i < y.cols,
        0 <= k < y.cols,
        i != k,
    ensures
        y.add_col_multiple(k, i, -c).mul(x.add_row_multiple(i, k, c)) == y.mul(x),
{
    let y2 = y.add_col_multiple(k, i, -c);
    let x2 = x.add_row_multiple(i, k, c);
    let l = y2.mul(x2);
    let r = y.mul(x);
    assert forall|a: int, b: int| l.has(a, b) implies #[trigger] l.e[a][b] == r.e[a][b] by {
        let u = y.e[a];
        let u2 = y2.e[a];
        let v = x.col(b);
        let v2 = x2.col(b);
        lemma_dot_change_left(u, u2, v2, k, y.cols);
        lemma_dot_change_right(u, v, v2, i, y.cols);
        let (p, q) = (u[i], v[k]);
        assert(((-c) * p) * q + p * (c * q) == 0) by (nonlinear_arith);
    }
    assert(l =~~= r);
}

/// Negating a column on the left undoes negating the same row on the right.
pub proof fn lemma_cancel_negate(y: Mat, x: Mat, k: int)
    requires
        y.wf(),
        x.wf(),
        y.cols == x.rows,
        0 <= k < y.cols,
    ensures
        y.negate_col(k).mul(x.negate_row(k)) == y.mul(x),
{
    let y2 = y.negate_col(k);
    let x2 = x.negate_row(k);
    let l = y2.mul(x2);
    let r = y.mul(x);
    assert forall|a: int, b: int| l.has(a, b) implies #[trigger] l.e[a][b] == r.e[a][b] by {
        let u = y.e[a];
        let u2 = y2.e[a];
        let v = x.col(b);
        let v2 = x2.col(b);
        lemma_dot_change_left(u, u2, v2, k, y.cols);
        lemma_dot_change_right(u, v, v2, k, y.cols);
        let (p, q) = (u[k], v[k]);
        assert((-p - p) * (-q) + p * (-q - q) == 0) by (nonlinear_arith);
    }
    assert(l =~~= r);
}

/// A row exchange on one matrix and the same column exchange on its
/// inverse keep the two inverse to each other.
pub proof fn lemma_inverse_swap(x: Mat, y: Mat, i: int, k: int)
    requires
        x.is_inverse_of(y),
        0 <= i < x.rows,
        0 <= k < x.rows,
    ensures
        x.swap_rows(i, k).is_inverse_of(y.swap_cols(i, k)),
{
    lemma_pair_swap(x, y, i, k);
    lemma_cancel_swap(y, x, i, k);
}

/// Adding `c` times row `k` to row `i` of one matrix and subtracting
/// `c` times column `i` from column `k` of its inverse keep the two
/// inverse to each other.
pub proof fn lemma_inverse_add(x: Mat, y: Mat, i: int, k: int, c: int)
    requires
        x.is_inverse_of(y),
        0 <= i < x.rows,
        0 <= k < x.rows,
        i != k,
    ensures
        x.add_row_multiple(i, k, c).is_inverse_of(y.add_col_multiple(k, i, -c)),
{
    lemma_pair_add(x, y, i, k, c);
    lemma_cancel_add(y, x, i, k, c);
}

/// Negating a row of one matrix and the same column of its inverse
/// keep the two inverse to each other.
pub proof fn lemma_inverse_negate(x: Mat, y: Mat, k: int)
    requires
        x.is_inverse_of(y),
        0 <= k < x.rows,
    ensures
        x.negate_row(k).is_inverse_of(y.negate_col(k)),
{
    lemma_pair_negate(x, y, k);
    lemma_cancel_negate(y, x, k);
}

/// A dot product with a zero vector is zero.
pub proof fn lemma_dot_zero(u: Seq<int>, z: Seq<int>, n: nat)
    requires
        forall|l: int| 0 <= l < n ==> z[l] == 0,
    ensures
        dot(u, z, n) == 0,
    decreases n,
{
    if n > 0 {
        lemma_dot_zero(u, z, (n - 1) as nat);
        assert(u[n - 1] * 0 == 0);
    }
}

/// A row vector times a matrix, then dotted with a vector, is the row
/// vector dotted with the matrix times the vector.
pub proof fn lemma_dot_assoc(u: Seq<int>, y: Mat, v: Seq<int>, m: nat)
    requires
        y.wf(),
        m <= y.rows,
    ensures
        dot(Seq::new(y.cols, |k: int| dot(u, y.col(k), m)), v, y.cols) == dot(
            u,
            Seq::new(y.rows, |j: int| dot(y.e[j], v, y.cols)),
            m,
        ),
    decreases m,
{
    let uy = Seq::new(y.cols, |k: int| dot(u, y.col(k), m));
    let yv = Seq::new(y.rows, |j: int| dot(y.e[j], v, y.cols));
    if m == 0 {
        lemma_dot_zero_left(uy, v, y.cols);
    } else {
        let m1 = (m - 1) as nat;
        lemma_dot_assoc(u, y, v, m1);
        let uy1 = Seq::new(y.cols, |k: int| dot(u, y.col(k), m1));
        lemma_dot_linear_left(uy1, y.e[m - 1], uy, v, 1, u[m - 1], y.cols);
        assert(1 * dot(uy1, v, y.cols) == dot(uy1, v, y.cols));
    }
}

/// A dot product with a zero vector on the left is zero.
pub proof fn lemma_dot_zero_left(z: Seq<int>, v: Seq<int>, n: nat)
    requires
        forall|l: int| 0 <= l < n ==> z[l] == 0,
    ensures
        dot(z, v, n) == 0,
    decreases n,
{
    if n > 0 {
        lemma_dot_zero_left(z, v, (n - 1) as nat);
        assert(0 * v[n - 1] == 0);
    }
}

/// Matrix multiplication is associative.
pub proof fn lemma_mul_assoc(x: Mat, y: Mat, z: Mat)
    requires
        x.wf(),
        y.wf(),
        z.wf(),
        x.cols == y.rows,
        y.cols == z.rows,
    ensures
        x.mul(y).mul(z) == x.mul(y.mul(z)),
{
    let l = x.mul(y).mul(z);
    let r = x.mul(y.mul(z));
    assert forall|i: int, j: int| l.has(i, j) implies #[trigger] l.e[i][j] == r.e[i][j] by {
        lemma_dot_assoc(x.e[i], y, z.col(j), x.cols);
        assert(x.mul(y).e[i] =~= Seq::new(y.cols, |k: int| dot(x.e[i], y.col(k), x.cols)));
        assert(y.mul(z).col(j) =~= Seq::new(y.rows, |a: int| dot(y.e[a], z.col(j), y.cols)));
    }
    assert(l =~~= r);
}

} // verus!
