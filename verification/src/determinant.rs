//! The determinant of a square integer matrix, by expansion along the
//! first column, and how elementary row operations change it.

use vstd::prelude::*;
use crate::matrix::Mat;

verus! {

/// 1 for even `i`, -1 for odd `i`.
pub open spec fn parity_sign(i: int) -> int {
    if i % 2 == 0 {
        1
    } else {
        -1
    }
}

/// `m` without row `r` and without its first column.
pub open spec fn minor(m: Mat, r: int) -> Mat {
    Mat::new(
        if m.rows > 0 {
            (m.rows - 1) as nat
        } else {
            0
        },
        if m.cols > 0 {
            (m.cols - 1) as nat
        } else {
            0
        },
        |i: int, j: int|
            m.e[if i < r {
                i
            } else {
                i + 1
            }][j + 1],
    )
}

/// The determinant of a square matrix: 1 for the empty matrix, and
/// otherwise the expansion along the first column.
pub open spec fn det(m: Mat) -> int
    decreases m.rows, 1int, 0int,
{
    if m.rows == 0 {
        1
    } else {
        expansion(m, m.rows as int)
    }
}

/// The first `n` terms of the expansion of the determinant of `m` along
/// its first column: the entry of each row there, with alternating
/// sign, times the determinant of the matrix without that row and the
/// first column.
pub open spec fn expansion(m: Mat, n: int) -> int
    decreases m.rows, 0int, n,
{
    if n <= 0 || m.rows == 0 {
        0
    } else {
        expansion(m, n - 1) + parity_sign(n - 1) * m.e[n - 1][0] * det(minor(m, n - 1))
    }
}

/// `m` with row `r` replaced by `s` times itself plus `c` times `w`.
pub open spec fn combine_row(m: Mat, r: int, s: int, c: int, w: Seq<int>) -> Mat {
    Mat::new(
        m.rows,
        m.cols,
        |i: int, j: int|
            if i == r {
                s * m.e[i][j] + c * w[j]
            } else {
                m.e[i][j]
            },
    )
}

/// `m` with row `r` replaced by `w`.
pub open spec fn replace_row(m: Mat, r: int, w: Seq<int>) -> Mat {
    Mat::new(
        m.rows,
        m.cols,
        |i: int, j: int|
            if i == r {
                w[j]
            } else {
                m.e[i][j]
            },
    )
}

/// `m` is square and well formed.
pub open spec fn is_square(m: Mat) -> bool {
    m.wf() && m.rows == m.cols
}

/// The determinant is linear in each row: the first terms of the
/// expansion of a matrix whose row `r` is a combination are the same
/// combination of the expansions.
pub proof fn lemma_expansion_row_linear(m: Mat, r: int, s: int, c: int, w: Seq<int>, n: int)
    requires
        is_square(m),
        0 <= r < m.rows,
        w.len() == m.cols,
        0 <= n <= m.rows,
    ensures
        expansion(combine_row(m, r, s, c, w), n) == s * expansion(m, n) + c * expansion(
            replace_row(m, r, w),
            n,
        ),
    decreases m.rows, n,
{
    let m2 = combine_row(m, r, s, c, w);
    let mw = replace_row(m, r, w);
    if n > 0 {
        lemma_expansion_row_linear(m, r, s, c, w, n - 1);
        let i = n - 1;
        let a = parity_sign(i);
        if i == r {
            assert(minor(m2, i) =~~= minor(m, i));
            assert(minor(mw, i) =~~= minor(m, i));
            let d = det(minor(m, i));
            let x = m.e[i][0];
            let y = w[0];
            assert(a * (s * x + c * y) == s * (a * x) + c * (a * y)) by (nonlinear_arith);
            assert((s * (a * x) + c * (a * y)) * d == s * (a * x * d) + c * (a * y * d))
                by (nonlinear_arith);
        } else {
            let r2 = if r < i {
                r
            } else {
                r - 1
            };
            let w2 = w.skip(1);
            let mi = minor(m, i);
            assert(minor(m2, i) =~~= combine_row(mi, r2, s, c, w2));
            assert(minor(mw, i) =~~= replace_row(mi, r2, w2));
            lemma_det_row_linear(mi, r2, s, c, w2);
            let x = m.e[i][0];
            let d = det(mi);
            let dw = det(minor(mw, i));
            let ax = a * x;
            assert(ax * (s * d + c * dw) == s * (ax * d) + c * (ax * dw)) by (nonlinear_arith);
        }
        assert(s * (expansion(m, n - 1) + a * m.e[i][0] * det(minor(m, i))) == s * expansion(
            m,
            n - 1,
        ) + s * (a * m.e[i][0] * det(minor(m, i)))) by (nonlinear_arith);
        assert(c * (expansion(mw, n - 1) + a * mw.e[i][0] * det(minor(mw, i))) == c * expansion(
            mw,
            n - 1,
        ) + c * (a * mw.e[i][0] * det(minor(mw, i)))) by (nonlinear_arith);
    } else {
        assert(s * 0 + c * 0 == 0);
    }
}

/// The determinant is linear in each row.
pub proof fn lemma_det_row_linear(m: Mat, r: int, s: int, c: int, w: Seq<int>)
    requires
        is_square(m),
        0 <= r < m.rows,
        w.len() == m.cols,
    ensures
        det(combine_row(m, r, s, c, w)) == s * det(m) + c * det(replace_row(m, r, w)),
    decreases m.rows, m.rows + 1,
{
    lemma_expansion_row_linear(m, r, s, c, w, m.rows as int);
}

/// Exchanging two neighbouring rows negates the expansion, as long as
/// the terms of both rows are counted or neither is.
pub proof fn lemma_expansion_adjacent_swap(m: Mat, r: int, n: int)
    requires
        is_square(m),
        0 <= r,
        r + 1 < m.rows,
        0 <= n <= m.rows,
        n <= r || n >= r + 2,
    ensures
        expansion(m.swap_rows(r, r + 1), n) == -expansion(m, n),
    decreases m.rows, n,
{
    let m2 = m.swap_rows(r, r + 1);
    if n > 0 {
        let i = n - 1;
        let a = parity_sign(i);
        if i < r {
            lemma_expansion_adjacent_swap(m, r, n - 1);
            let mi = minor(m, i);
            assert(minor(m2, i) =~~= mi.swap_rows(r - 1, r));
            lemma_det_adjacent_swap(mi, r - 1);
            let ax = a * m.e[i][0];
            assert(ax * (-det(mi)) == -(ax * det(mi))) by (nonlinear_arith);
        } else if i == r + 1 {
            lemma_expansion_adjacent_swap(m, r, r);
            assert(minor(m2, r) =~~= minor(m, r + 1));
            assert(minor(m2, r + 1) =~~= minor(m, r));
            let x = m.e[r][0];
            let y = m.e[r + 1][0];
            let dx = det(minor(m, r));
            let dy = det(minor(m, r + 1));
            let ar = parity_sign(r);
            let as1 = parity_sign(r + 1);
            assert(as1 == -ar);
            assert(expansion(m2, r + 1) == expansion(m2, r) + ar * y * dy);
            assert(expansion(m2, r + 2) == expansion(m2, r + 1) + as1 * x * dx);
            assert(expansion(m, r + 1) == expansion(m, r) + ar * x * dx);
            assert(expansion(m, r + 2) == expansion(m, r + 1) + as1 * y * dy);
            assert(as1 * x * dx == -(ar * x * dx)) by (nonlinear_arith)
                requires
                    as1 == -ar,
            ;
            assert(as1 * y * dy == -(ar * y * dy)) by (nonlinear_arith)
                requires
                    as1 == -ar,
            ;
        } else {
            lemma_expansion_adjacent_swap(m, r, n - 1);
            let mi = minor(m, i);
            assert(minor(m2, i) =~~= mi.swap_rows(r, r + 1));
            lemma_det_adjacent_swap(mi, r);
            let ax = a * m.e[i][0];
            assert(ax * (-det(mi)) == -(ax * det(mi))) by (nonlinear_arith);
        }
    }
}

/// Exchanging two neighbouring rows negates the determinant.
pub proof fn lemma_det_adjacent_swap(m: Mat, r: int)
    requires
        is_square(m),
        0 <= r,
        r + 1 < m.rows,
    ensures
        det(m.swap_rows(r, r + 1)) == -det(m),
    decreases m.rows, m.rows + 1,
{
    lemma_expansion_adjacent_swap(m, r, m.rows as int);
}

/// A matrix with two equal rows has determinant zero.
pub proof fn lemma_det_equal_rows(m: Mat, r: int, s: int)
    requires
        is_square(m),
        0 <= r < s < m.rows,
        forall|j: int| 0 <= j < m.cols ==> m.e[r][j] == m.e[s][j],
    ensures
        det(m) == 0,
    decreases s - r,
{
    if s == r + 1 {
        assert(m.swap_rows(r, r + 1) =~~= m);
        lemma_det_adjacent_swap(m, r);
    } else {
        let m2 = m.swap_rows(s - 1, s);
        lemma_det_adjacent_swap(m, s - 1);
        lemma_det_equal_rows(m2, r, s - 1);
    }
}

/// Adding a multiple of one row to another keeps the determinant.
pub proof fn lemma_det_add_row(m: Mat, i: int, k: int, c: int)
    requires
        is_square(m),
        0 <= i < m.rows,
        0 <= k < m.rows,
        i != k,
    ensures
        det(m.add_row_multiple(i, k, c)) == det(m),
{
    let w = m.e[k];
    lemma_det_row_linear(m, i, 1, c, w);
    assert(combine_row(m, i, 1, c, w) =~~= m.add_row_multiple(i, k, c)) by {
        assert forall|x: int, y: int| m.has(x, y) implies 1 * m.e[x][y] == m.e[x][y] by {}
    }
    let mw = replace_row(m, i, w);
    if i < k {
        lemma_det_equal_rows(mw, i, k);
    } else {
        lemma_det_equal_rows(mw, k, i);
    }
    assert(1 * det(m) + c * 0 == det(m));
}

/// Negating a row negates the determinant.
pub proof fn lemma_det_negate_row(m: Mat, k: int)
    requires
        is_square(m),
        0 <= k < m.rows,
    ensures
        det(m.negate_row(k)) == -det(m),
{
    let w = m.e[k];
    lemma_det_row_linear(m, k, -1, 0, w);
    assert(combine_row(m, k, -1, 0, w) =~~= m.negate_row(k)) by {
        assert forall|x: int, y: int| m.has(x, y) implies (-1) * m.e[x][y] + 0 * w[y] == -m.e[x][y] by {}
    }
    assert((-1) * det(m) + 0 * det(replace_row(m, k, w)) == -det(m));
}

/// Exchanging two different rows negates the determinant.
pub proof fn lemma_det_swap_rows(m: Mat, i: int, k: int)
    requires
        is_square(m),
        0 <= i < m.rows,
        0 <= k < m.rows,
        i != k,
    ensures
        det(m.swap_rows(i, k)) == -det(m),
{
    let m1 = m.add_row_multiple(i, k, 1);
    let m2 = m1.add_row_multiple(k, i, -1);
    let m3 = m2.add_row_multiple(i, k, 1);
    let m4 = m3.negate_row(k);
    lemma_det_add_row(m, i, k, 1);
    lemma_det_add_row(m1, k, i, -1);
    lemma_det_add_row(m2, i, k, 1);
    lemma_det_negate_row(m3, k);
    assert forall|x: int, y: int| m.has(x, y) implies #[trigger] m4.e[x][y] == m.swap_rows(
        i,
        k,
    ).e[x][y] by {
        let a = m.e[i][y];
        let b = m.e[k][y];
        assert(m1.e[i][y] == a + 1 * b);
        assert(m2.e[k][y] == b + (-1) * m1.e[i][y]);
        assert(m3.e[i][y] == m1.e[i][y] + 1 * m2.e[k][y]);
    }
    assert(m4 =~~= m.swap_rows(i, k));
}

/// An identity matrix has determinant 1.
pub proof fn lemma_det_identity(n: nat)
    ensures
        det(Mat::identity(n)) == 1,
    decreases n,
{
    if n > 0 {
        lemma_identity_expansion(n, n as int);
    }
}

/// In the expansion of an identity matrix only the first term counts.
pub proof fn lemma_identity_expansion(n: nat, k: int)
    requires
        n > 0,
        1 <= k <= n,
    ensures
        expansion(Mat::identity(n), k) == 1,
    decreases n, k,
{
    let id = Mat::identity(n);
    if k == 1 {
        assert(minor(id, 0) =~~= Mat::identity((n - 1) as nat));
        lemma_det_identity((n - 1) as nat);
        assert(expansion(id, 0) == 0);
        assert(1 * 1 * 1 == 1);
    } else {
        lemma_identity_expansion(n, k - 1);
        let i = k - 1;
        assert(id.e[i][0] == 0);
        assert(parity_sign(i) * 0 * det(minor(id, i)) == 0) by (nonlinear_arith);
    }
}

impl Mat {
    /// The transpose: rows and columns exchanged.
    pub open spec fn transpose(self) -> Mat {
        Mat::new(self.cols, self.rows, |i: int, j: int| self.e[j][i])
    }
}

/// 1 or -1.
pub open spec fn is_unit(x: int) -> bool {
    x == 1 || x == -1
}

/// `m` without row `r` and column `c`.
pub open spec fn minor_at(m: Mat, r: int, c: int) -> Mat {
    Mat::new(
        if m.rows > 0 {
            (m.rows - 1) as nat
        } else {
            0
        },
        if m.cols > 0 {
            (m.cols - 1) as nat
        } else {
            0
        },
        |i: int, j: int|
            m.e[if i < r {
                i
            } else {
                i + 1
            }][if j < c {
                j
            } else {
                j + 1
            }],
    )
}

/// The vector of length `n` that is 1 at `j` and 0 elsewhere.
pub open spec fn unit_vector(n: nat, j: int) -> Seq<int> {
    Seq::new(n, |l: int| if l == j { 1int } else { 0int })
}

/// The first `n` terms of the expansion of the determinant of `m` along
/// its first row.
pub open spec fn row_expansion(m: Mat, n: int) -> int
    decreases n,
{
    if n <= 0 {
        0
    } else {
        row_expansion(m, n - 1) + parity_sign(n - 1) * m.e[0][n - 1] * det(minor_at(m, 0, n - 1))
    }
}

/// A matrix with a zero row has determinant zero.
pub proof fn lemma_det_zero_row(m: Mat, r: int)
    requires
        is_square(m),
        0 <= r < m.rows,
        forall|j: int| 0 <= j < m.cols ==> m.e[r][j] == 0,
    ensures
        det(m) == 0,
{
    let w = m.e[r];
    lemma_det_row_linear(m, r, 0, 0, w);
    assert(combine_row(m, r, 0, 0, w) =~~= m) by {
        assert forall|x: int, y: int| m.has(x, y) implies 0 * m.e[x][y] + 0 * w[y] == 0 by {}
    }
    assert(0 * det(m) + 0 * det(replace_row(m, r, w)) == 0);
}

/// When the first row of `m` is the unit vector at 0, only the first
/// term of the expansion along the first column counts.
proof fn lemma_unit_row_first(m: Mat, k: int)
    requires
        is_square(m),
        m.rows >= 1,
        forall|j: int| 0 <= j < m.cols ==> m.e[0][j] == unit_vector(m.cols, 0)[j],
        1 <= k <= m.rows,
    ensures
        expansion(m, k) == det(minor(m, 0)),
    decreases k,
{
    if k == 1 {
        assert(expansion(m, 0) == 0);
        let d = det(minor(m, 0));
        assert(m.e[0][0] == 1);
        assert(parity_sign(0) * m.e[0][0] * d == d) by (nonlinear_arith)
            requires
                parity_sign(0) == 1,
                m.e[0][0] == 1,
        ;
    } else {
        lemma_unit_row_first(m, k - 1);
        let i = k - 1;
        let mi = minor(m, i);
        lemma_det_zero_row(mi, 0);
        assert(parity_sign(i) * m.e[i][0] * 0 == 0);
    }
}

/// When the first row of `m` is the unit vector at `j`, the determinant
/// is the determinant of `m` without that row and column `j`, with the
/// sign of `j`.
pub proof fn lemma_det_unit_row(m: Mat, j: int)
    requires
        is_square(m),
        0 <= j < m.cols,
        forall|l: int| 0 <= l < m.cols ==> m.e[0][l] == unit_vector(m.cols, j)[l],
    ensures
        det(m) == parity_sign(j) * det(minor_at(m, 0, j)),
    decreases m.rows, m.rows + 1,
{
    if j == 0 {
        lemma_unit_row_first(m, m.rows as int);
        assert(minor(m, 0) =~~= minor_at(m, 0, 0));
        assert(1 * det(minor_at(m, 0, 0)) == det(minor_at(m, 0, 0)));
    } else {
        lemma_unit_row_later(m, j, (m.rows - 1) as int);
        let nn = minor_at(m, 0, j);
        assert(det(nn) == expansion(nn, nn.rows as int));
    }
}

/// When the first row of `m` is the unit vector at `j >= 1`, the
/// expansion of `m` along the first column follows, term by term, the
/// expansion of `m` without its first row and column `j`.
proof fn lemma_unit_row_later(m: Mat, j: int, k: int)
    requires
        is_square(m),
        1 <= j < m.cols,
        forall|l: int| 0 <= l < m.cols ==> m.e[0][l] == unit_vector(m.cols, j)[l],
        0 <= k <= m.rows - 1,
    ensures
        expansion(m, k + 1) == parity_sign(j) * expansion(minor_at(m, 0, j), k),
    decreases m.rows, k,
{
    let nn = minor_at(m, 0, j);
    if k == 0 {
        assert(expansion(m, 0) == 0);
        assert(m.e[0][0] == 0);
        assert(parity_sign(0) * 0 * det(minor(m, 0)) == 0) by (nonlinear_arith);
        assert(parity_sign(j) * 0 == 0);
    } else {
        lemma_unit_row_later(m, j, k - 1);
        let mk = minor(m, k);
        assert forall|l: int| 0 <= l < mk.cols implies mk.e[0][l] == unit_vector(mk.cols, j - 1)[l] by {
            assert(mk.e[0][l] == m.e[0][l + 1]);
        }
        lemma_det_unit_row(mk, j - 1);
        let x = minor_at(mk, 0, j - 1);
        assert(minor(nn, k - 1) =~~= x);
        assert(nn.e[k - 1][0] == m.e[k][0]);
        let aj = parity_sign(j);
        let aj1 = parity_sign(j - 1);
        let ak = parity_sign(k);
        let ak1 = parity_sign(k - 1);
        let v = m.e[k][0];
        let d = det(x);
        assert(ak * v * (aj1 * d) == aj * (ak1 * v * d)) by (nonlinear_arith)
            requires
                (ak == 1 && ak1 == -1) || (ak == -1 && ak1 == 1),
                (aj == 1 && aj1 == -1) || (aj == -1 && aj1 == 1),
        ;
        assert(aj * (expansion(nn, k - 1) + ak1 * v * d) == aj * expansion(nn, k - 1) + aj * (ak1
            * v * d)) by (nonlinear_arith);
    }
}

/// `m` with the entries of its first row from column `k` on set to zero.
pub open spec fn first_row_upto(m: Mat, k: int) -> Mat {
    Mat::new(
        m.rows,
        m.cols,
        |i: int, j: int|
            if i == 0 && j >= k {
                0
            } else {
                m.e[i][j]
            },
    )
}

/// The determinant of `m` with its first row cut off at column `k` is
/// the sum of the first `k` terms of the expansion along the first row.
proof fn lemma_row_expansion_upto(m: Mat, k: int)
    requires
        is_square(m),
        m.rows >= 1,
        0 <= k <= m.cols,
    ensures
        det(first_row_upto(m, k)) == row_expansion(m, k),
    decreases k,
{
    let mk = first_row_upto(m, k);
    if k == 0 {
        lemma_det_zero_row(mk, 0);
    } else {
        lemma_row_expansion_upto(m, k - 1);
        let prev = first_row_upto(m, k - 1);
        let c = m.e[0][k - 1];
        let w = unit_vector(m.cols, k - 1);
        lemma_det_row_linear(prev, 0, 1, c, w);
        assert(combine_row(prev, 0, 1, c, w) =~~= mk) by {
            assert forall|x: int, y: int| m.has(x, y) implies #[trigger] combine_row(
                prev,
                0,
                1,
                c,
                w,
            ).e[x][y] == mk.e[x][y] by {
                assert(c * 1 == c);
                assert(c * 0 == 0);
                assert(1 * prev.e[x][y] == prev.e[x][y]);
            }
        }
        let u = replace_row(prev, 0, w);
        lemma_det_unit_row(u, k - 1);
        assert(minor_at(u, 0, k - 1) =~~= minor_at(m, 0, k - 1));
        let a = parity_sign(k - 1);
        let d = det(minor_at(m, 0, k - 1));
        assert(1 * det(prev) + c * (a * d) == det(prev) + a * c * d) by (nonlinear_arith);
    }
}

/// The determinant can be expanded along the first row as well as along
/// the first column.
pub proof fn lemma_det_row_expansion(m: Mat)
    requires
        is_square(m),
        m.rows >= 1,
    ensures
        det(m) == row_expansion(m, m.cols as int),
{
    lemma_row_expansion_upto(m, m.cols as int);
    assert(first_row_upto(m, m.cols as int) =~~= m);
}

/// The expansion of the transpose along its first column is the
/// expansion of the matrix along its first row.
proof fn lemma_transpose_expansion(m: Mat, k: int)
    requires
        is_square(m),
        m.rows >= 1,
        0 <= k <= m.rows,
    ensures
        expansion(m.transpose(), k) == row_expansion(m, k),
    decreases m.rows, k,
{
    if k > 0 {
        lemma_transpose_expansion(m, k - 1);
        let i = k - 1;
        let mt = m.transpose();
        let x = minor_at(m, 0, i);
        assert(minor(mt, i) =~~= x.transpose());
        lemma_det_transpose(x);
    }
}

/// A matrix and its transpose have the same determinant.
pub proof fn lemma_det_transpose(m: Mat)
    requires
        is_square(m),
    ensures
        det(m.transpose()) == det(m),
    decreases m.rows, m.rows + 1,
{
    if m.rows >= 1 {
        lemma_transpose_expansion(m, m.rows as int);
        lemma_det_row_expansion(m);
    }
}

} // verus!
