//! The kernel of an integer matrix as a lattice: what a basis of it is,
//! that a Smith normal form yields one, and that column reduction keeps
//! one.

use vstd::prelude::*;
use crate::linear::{
    dot, lemma_add_col_mul, lemma_cancel_add, lemma_dot_zero, lemma_identity_mul, lemma_mul_assoc,
};
use crate::matrix::Mat;
use crate::reduce::{pivot_row, reduce, reduce_pair, reduce_with};
use crate::arith::tdiv;
use crate::smith_form::diag_rank;
use crate::snf::Decomposed;

verus! {

/// Columns `from..to` of `m`.
pub open spec fn columns(m: Mat, from: int, to: int) -> Mat {
    Mat::new(m.rows, (to - from) as nat, |i: int, j: int| m.e[i][j + from])
}

/// `x` is a column vector with `n` entries.
pub open spec fn is_vector(x: Mat, n: nat) -> bool {
    x.wf() && x.rows == n && x.cols == 1
}

/// `x` is a vector that `a` sends to zero.
pub open spec fn in_kernel(a: Mat, x: Mat) -> bool {
    is_vector(x, a.cols) && a.mul(x).is_zero()
}

/// `x` is the combination of the columns of `z` with the coefficients `y`.
pub open spec fn combines_to(z: Mat, y: Mat, x: Mat) -> bool {
    is_vector(y, z.cols) && z.mul(y) == x
}

/// Every vector in the kernel of `a` is an integer combination of the
/// columns of `z`.
pub open spec fn generates_kernel(z: Mat, a: Mat) -> bool {
    forall|x: Mat| #[trigger] in_kernel(a, x) ==> exists|y: Mat| #[trigger] combines_to(z, y, x)
}

/// No combination of the columns of `z` vanishes but the one with all
/// coefficients zero.
pub open spec fn independent(z: Mat) -> bool {
    forall|y: Mat| is_vector(y, z.cols) && (#[trigger] z.mul(y)).is_zero() ==> y.is_zero()
}

/// The columns of `z` are a basis of the kernel of `a`: they lie in it,
/// they generate it over the integers, and they are independent.
pub open spec fn is_kernel_basis(z: Mat, a: Mat) -> bool {
    &&& z.wf()
    &&& z.rows == a.cols
    &&& a.mul(z).is_zero()
    &&& generates_kernel(z, a)
    &&& independent(z)
}

/// A matrix times a zero matrix is zero.
pub proof fn lemma_mul_zero(m: Mat, x: Mat)
    requires
        x.is_zero(),
        m.cols == x.rows,
    ensures
        m.mul(x).is_zero(),
{
    let r = m.mul(x);
    assert forall|i: int, j: int| r.has(i, j) implies (#[trigger] r.e[i][j]) == 0 by {
        let c = x.col(j);
        assert forall|l: int| 0 <= l < m.cols implies (#[trigger] c[l]) == 0 by {
            assert(x.e[l][j] == 0);
        }
        lemma_dot_zero(m.e[i], c, m.cols);
    }
}

/// A dot product whose right operand starts with `r` zeros is the dot
/// product of what follows them.
pub proof fn lemma_dot_skip(u: Seq<int>, v: Seq<int>, u2: Seq<int>, v2: Seq<int>, r: int, n: nat)
    requires
        0 <= r <= n,
        forall|l: int| 0 <= l < r ==> v[l] == 0,
        forall|l: int| 0 <= l < n - r ==> u2[l] == u[l + r] && v2[l] == v[l + r],
    ensures
        dot(u, v, n) == dot(u2, v2, (n - r) as nat),
    decreases n,
{
    if n == r {
        lemma_dot_zero(u, v, n);
    } else {
        lemma_dot_skip(u, v, u2, v2, r, (n - 1) as nat);
    }
}

/// The product of a diagonal row with a vector is the diagonal entry
/// times the entry of the vector.
pub proof fn lemma_dot_single(u: Seq<int>, v: Seq<int>, at: int, n: nat)
    requires
        forall|l: int| 0 <= l < n && l != at ==> u[l] == 0,
    ensures
        dot(u, v, n) == (if 0 <= at < n {
            u[at] * v[at]
        } else {
            0
        }),
    decreases n,
{
    if n > 0 {
        lemma_dot_single(u, v, at, (n - 1) as nat);
        if at != n - 1 {
            assert(0 * v[n - 1] == 0);
        }
    }
}

/// The columns of `q` from the rank on lie in the kernel of `a`: they
/// are the columns that `a * q == p_inv * b` sends to the zero columns
/// of `b`.
pub proof fn lemma_kernel_columns(s: Decomposed, a: Mat)
    requires
        s.is_smith_normal_form_of(a),
    ensures
        a.mul(columns(s.q@, diag_rank(s.b@), s.q@.cols as int)).is_zero(),
{
    let r = diag_rank(s.b@);
    let q = s.q@;
    let b = s.b@;
    let pi = s.p_inv@;
    let z = columns(q, r, q.cols as int);
    let m = a.mul(z);
    assert forall|i: int, j: int| m.has(i, j) implies (#[trigger] m.e[i][j]) == 0 by {
        assert(z.col(j) =~= q.col(j + r));
        assert(a.mul(q).e[i][j + r] == m.e[i][j]);
        assert(pi.mul(b).e[i][j + r] == dot(pi.e[i], b.col(j + r), pi.cols));
        let zc = b.col(j + r);
        assert forall|l: int| 0 <= l < pi.cols implies (#[trigger] zc[l]) == 0 by {
            if l == j + r {
                assert(b.e[l][l] == 0);
            } else {
                assert(b.e[l][j + r] == 0);
            }
        }
        lemma_dot_zero(pi.e[i], zc, pi.cols);
    }
}

/// The coefficients `y` placed below `r` zeros.
pub open spec fn padded(y: Mat, r: int) -> Mat {
    Mat::new(
        (y.rows + r) as nat,
        1,
        |i: int, j: int|
            if i < r {
                0
            } else {
                y.e[i - r][0]
            },
    )
}

/// The entries of the vector `y` from `r` on.
pub open spec fn tail(y: Mat, r: int) -> Mat {
    Mat::new((y.rows - r) as nat, 1, |i: int, j: int| y.e[i + r][0])
}

/// Combining the last columns of `q` is combining all of them with
/// zeros for the first.
proof fn lemma_columns_combine(q: Mat, r: int, full: Mat, part: Mat)
    requires
        q.wf(),
        0 <= r <= q.cols,
        is_vector(full, q.cols),
        is_vector(part, (q.cols - r) as nat),
        forall|l: int| 0 <= l < r ==> (#[trigger] full.e[l][0]) == 0,
        forall|l: int| 0 <= l < q.cols - r ==> (#[trigger] part.e[l][0]) == full.e[l + r][0],
    ensures
        columns(q, r, q.cols as int).mul(part) == q.mul(full),
{
    let z = columns(q, r, q.cols as int);
    let l = z.mul(part);
    let m = q.mul(full);
    assert forall|i: int, j: int| l.has(i, j) implies #[trigger] l.e[i][j] == m.e[i][j] by {
        lemma_dot_skip(q.e[i], full.col(0), z.e[i], part.col(0), r, q.cols);
    }
    assert(l =~~= m);
}

/// A Smith normal form yields a basis of the kernel: the columns of `q`
/// from the rank of the diagonal matrix on. The kernel of `a` is thus
/// free on as many generators as `a` has columns beyond that rank.
pub proof fn lemma_smith_kernel_basis(s: Decomposed, a: Mat)
    requires
        s.is_smith_normal_form_of(a),
    ensures
        is_kernel_basis(columns(s.q@, diag_rank(s.b@), s.q@.cols as int), a),
        columns(s.q@, diag_rank(s.b@), s.q@.cols as int).cols == a.cols - diag_rank(s.b@),
{
    let r = diag_rank(s.b@);
    let q = s.q@;
    let b = s.b@;
    let p = s.p@;
    let n = a.cols;
    let z = columns(q, r, n as int);
    let qi = choose|qi: Mat| #[trigger] q.is_inverse_of(qi);
    lemma_kernel_columns(s, a);
    assert forall|x: Mat| #[trigger] in_kernel(a, x) implies exists|y: Mat| #[trigger]
        combines_to(z, y, x) by {
        let yf = qi.mul(x);
        // q * (qi * x) == x
        lemma_mul_assoc(q, qi, x);
        lemma_identity_mul(x);
        assert(q.mul(yf) == x);
        // b * yf == p * (a * x), which is zero
        lemma_mul_assoc(p.mul(a), q, yf);
        lemma_mul_assoc(p, a, x);
        lemma_mul_zero(p, a.mul(x));
        let by = b.mul(yf);
        assert(by.is_zero());
        assert forall|l: int| 0 <= l < r implies (#[trigger] yf.e[l][0]) == 0 by {
            assert(by.e[l][0] == 0);
            lemma_dot_single(b.e[l], yf.col(0), l, n);
            assert(b.e[l][l] > 0);
            assert(yf.e[l][0] == 0) by (nonlinear_arith)
                requires
                    b.e[l][l] * yf.e[l][0] == 0,
                    b.e[l][l] > 0,
            ;
        }
        let y = tail(yf, r);
        lemma_columns_combine(q, r, yf, y);
        assert(combines_to(z, y, x));
    }
    assert forall|y: Mat| is_vector(y, z.cols) && (#[trigger] z.mul(y)).is_zero() implies y.is_zero() by {
        let full = padded(y, r);
        lemma_columns_combine(q, r, full, y);
        // full == qi * (q * full), which is zero
        lemma_mul_assoc(qi, q, full);
        lemma_identity_mul(full);
        lemma_mul_zero(qi, q.mul(full));
        assert forall|i: int, j: int| y.has(i, j) implies (#[trigger] y.e[i][j]) == 0 by {
            assert(full.e[i + r][0] == 0);
        }
    }
}

/// Adding a multiple of one column to another keeps a basis of the
/// kernel.
pub proof fn lemma_add_col_keeps_basis(a: Mat, z: Mat, j2: int, j1: int, c: int)
    requires
        is_kernel_basis(z, a),
        0 <= j1 < z.cols,
        0 <= j2 < z.cols,
        j1 != j2,
    ensures
        is_kernel_basis(z.add_col_multiple(j2, j1, c), a),
{
    let z2 = z.add_col_multiple(j2, j1, c);
    lemma_add_col_mul(a, z, j2, j1, c);
    let az = a.mul(z);
    let az2 = az.add_col_multiple(j2, j1, c);
    assert forall|x: int, y: int| az2.has(x, y) implies (#[trigger] az2.e[x][y]) == 0 by {
        assert(az.e[x][y] == 0);
        assert(az.e[x][j1] == 0);
        assert(c * 0 == 0);
    }
    assert forall|x: Mat| #[trigger] in_kernel(a, x) implies exists|y: Mat| #[trigger]
        combines_to(z2, y, x) by {
        let y = choose|y: Mat| #[trigger] combines_to(z, y, x);
        let y2 = y.add_row_multiple(j1, j2, -c);
        lemma_cancel_add(z, y, j1, j2, -c);
        assert(z.add_col_multiple(j2, j1, -(-c)) == z2);
        assert(combines_to(z2, y2, x));
    }
    assert forall|y: Mat| is_vector(y, z2.cols) && (#[trigger] z2.mul(y)).is_zero() implies y.is_zero() by {
        let x = y.add_row_multiple(j1, j2, c);
        lemma_cancel_add(z, x, j1, j2, -c);
        assert(z.add_col_multiple(j2, j1, -(-c)) == z2);
        let back = x.add_row_multiple(j1, j2, -c);
        assert forall|i: int, j: int| y.has(i, j) implies #[trigger] back.e[i][j] == y.e[i][j] by {
            assert(c * y.e[j2][j] + (-c) * y.e[j2][j] == 0) by (nonlinear_arith);
        }
        assert(back =~~= y);
        assert(z.mul(x).is_zero());
        assert(x.is_zero());
        assert forall|i: int, j: int| y.has(i, j) implies (#[trigger] y.e[i][j]) == 0 by {
            assert(x.e[i][j] == 0);
            assert(x.e[j2][j] == 0);
            assert((-c) * 0 == 0);
        }
    }
}

/// A division step keeps a basis of the kernel of `a`.
pub proof fn lemma_reduce_pair_kernel(a: Mat, m: Mat, j1: int, j2: int)
    requires
        is_kernel_basis(m, a),
        0 <= j1 < m.cols,
        0 <= j2 < m.cols,
        reduce_pair(m, j1, j2) is Some,
    ensures
        is_kernel_basis(reduce_pair(m, j1, j2).unwrap(), a),
        reduce_pair(m, j1, j2).unwrap().cols == m.cols,
{
    let p = pivot_row(m, j1);
    if j2 != j1 && p < m.rows {
        let c = -tdiv(m.e[p][j2], m.e[p][j1]);
        lemma_add_col_keeps_basis(a, m, j2, j1, c);
    }
}

/// One column applied to others keeps a basis of the kernel of `a`.
pub proof fn lemma_reduce_with_kernel(a: Mat, m: Mat, j1: int, n: int)
    requires
        is_kernel_basis(m, a),
        0 <= j1 < m.cols,
        0 <= n <= m.cols,
        reduce_with(m, j1, n) is Some,
    ensures
        is_kernel_basis(reduce_with(m, j1, n).unwrap(), a),
        reduce_with(m, j1, n).unwrap().cols == m.cols,
    decreases n,
{
    if n > 0 {
        lemma_reduce_with_kernel(a, m, j1, n - 1);
        lemma_reduce_pair_kernel(a, reduce_with(m, j1, n - 1).unwrap(), j1, n - 1);
    }
}

/// Column reduction keeps a basis of the kernel of `a`.
pub proof fn lemma_reduce_kernel(a: Mat, m: Mat, n: int)
    requires
        is_kernel_basis(m, a),
        0 <= n <= m.cols,
        reduce(m, n) is Some,
    ensures
        is_kernel_basis(reduce(m, n).unwrap(), a),
        reduce(m, n).unwrap().cols == m.cols,
    decreases n,
{
    if n > 0 {
        lemma_reduce_kernel(a, m, n - 1);
        lemma_reduce_with_kernel(a, reduce(m, n - 1).unwrap(), n - 1, m.cols as int);
    }
}

} // verus!
