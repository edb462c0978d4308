//! What it means for a matrix to be in Smith normal form, wholly or up
//! to a position of the diagonal, and what the elementary operations
//! keep of it.

use vstd::prelude::*;
use crate::arith::{iabs, lemma_mod_combination, lemma_multiple_mod};
use crate::linear::swapped;
use crate::matrix::Mat;

verus! {

/// `(i, j)` lies in the block of `m` that starts at `(k, k)`.
pub open spec fn in_block(m: Mat, k: int, i: int, j: int) -> bool {
    k <= i < m.rows && k <= j < m.cols
}

/// The block of `m` that starts at `(k, k)` holds only zeros.
pub open spec fn block_is_zero(m: Mat, k: int) -> bool {
    forall|i: int, j: int| in_block(m, k, i, j) ==> (#[trigger] m.e[i][j]) == 0
}

/// `d` divides `x`, for a positive `d`.
pub open spec fn divides(d: int, x: int) -> bool {
    x % d == 0
}

/// The smaller of the two dimensions: the length of the diagonal.
pub open spec fn diag_len(m: Mat) -> int {
    if m.rows <= m.cols {
        m.rows as int
    } else {
        m.cols as int
    }
}

/// The first `k` rows and columns of `b` are finished: zero off the
/// diagonal, positive on it, each diagonal entry dividing the later ones
/// and everything in the block that is still to be reduced.
pub open spec fn partial_smith(b: Mat, k: int) -> bool {
    &&& 0 <= k <= diag_len(b)
    &&& forall|i: int, j: int|
        b.has(i, j) && i != j && (i < k || j < k) ==> (#[trigger] b.e[i][j]) == 0
    &&& forall|i: int| 0 <= i < k ==> (#[trigger] b.e[i][i]) > 0
    &&& forall|i: int, j: int| 0 <= i < j < k ==> #[trigger] divides(b.e[i][i], b.e[j][j])
    &&& forall|d: int, i: int, j: int|
        0 <= d < k && in_block(b, k, i, j) ==> #[trigger] divides(b.e[d][d], b.e[i][j])
}

/// The number of nonzero entries among the first `n` on the diagonal.
pub open spec fn nonzero_diag_count(m: Mat, n: int) -> int
    decreases n,
{
    if n <= 0 {
        0
    } else {
        nonzero_diag_count(m, n - 1) + (if m.e[n - 1][n - 1] != 0 {
            1int
        } else {
            0int
        })
    }
}

/// The rank of a diagonal matrix: how many diagonal entries are nonzero.
pub open spec fn diag_rank(m: Mat) -> int {
    nonzero_diag_count(m, diag_len(m))
}

/// `d` is in Smith normal form: diagonal, with `diag_rank(d)` positive
/// entries first, each dividing the next, and zeros after them.
pub open spec fn smith_form(d: Mat) -> bool {
    &&& forall|i: int, j: int| d.has(i, j) && i != j ==> (#[trigger] d.e[i][j]) == 0
    &&& 0 <= diag_rank(d) <= diag_len(d)
    &&& forall|i: int| 0 <= i < diag_rank(d) ==> (#[trigger] d.e[i][i]) > 0
    &&& forall|i: int| diag_rank(d) <= i < diag_len(d) ==> (#[trigger] d.e[i][i]) == 0
    &&& forall|i: int, j: int|
        0 <= i < j < diag_rank(d) ==> #[trigger] divides(d.e[i][i], d.e[j][j])
}

/// When the first `k` diagonal entries are nonzero and the others are
/// zero, `k` of them are counted.
pub proof fn lemma_count_prefix(m: Mat, k: int, n: int)
    requires
        0 <= k,
        0 <= n,
        forall|i: int| 0 <= i < k ==> (#[trigger] m.e[i][i]) != 0,
        forall|i: int| k <= i < n ==> (#[trigger] m.e[i][i]) == 0,
    ensures
        nonzero_diag_count(m, n) == (if n <= k { n } else { k }),
    decreases n,
{
    if n > 0 {
        lemma_count_prefix(m, k, n - 1);
    }
}

/// A matrix whose first `k` positions are finished and whose remaining
/// block is zero (or empty) is in Smith normal form, with rank `k`.
pub proof fn lemma_partial_done(b: Mat, k: int)
    requires
        b.wf(),
        partial_smith(b, k),
        block_is_zero(b, k),
    ensures
        smith_form(b),
        diag_rank(b) == k,
{
    assert forall|i: int| k <= i < diag_len(b) implies (#[trigger] b.e[i][i]) == 0 by {
        assert(in_block(b, k, i, i));
    }
    lemma_count_prefix(b, k, diag_len(b));
    assert forall|i: int, j: int| b.has(i, j) && i != j implies (#[trigger] b.e[i][j]) == 0 by {
        if i >= k && j >= k {
            assert(in_block(b, k, i, j));
        }
    }
}

/// Exchanging two rows at or below `k` keeps the first `k` positions finished.
pub proof fn lemma_partial_swap_rows(b: Mat, k: int, i1: int, i2: int)
    requires
        b.wf(),
        partial_smith(b, k),
        k <= i1 < b.rows,
        k <= i2 < b.rows,
    ensures
        partial_smith(b.swap_rows(i1, i2), k),
{
    let n = b.swap_rows(i1, i2);
    assert forall|i: int, j: int| n.has(i, j) && i != j && (i < k || j < k) implies (
    #[trigger] n.e[i][j]) == 0 by {
        assert(b.e[swapped(i, i1, i2)][j] == 0);
    }
    assert forall|i: int| 0 <= i < k implies (#[trigger] n.e[i][i]) > 0 by {
        assert(b.e[i][i] > 0);
    }
    assert forall|i: int, j: int| 0 <= i < j < k implies #[trigger] divides(
        n.e[i][i],
        n.e[j][j],
    ) by {
        assert(divides(b.e[i][i], b.e[j][j]));
    }
    assert forall|d: int, i: int, j: int| 0 <= d < k && in_block(n, k, i, j) implies #[trigger] divides(
        n.e[d][d],
        n.e[i][j],
    ) by {
        assert(in_block(b, k, swapped(i, i1, i2), j));
        assert(divides(b.e[d][d], b.e[swapped(i, i1, i2)][j]));
    }
}

/// Exchanging two columns at or right of `k` keeps the first `k` positions finished.
pub proof fn lemma_partial_swap_cols(b: Mat, k: int, j1: int, j2: int)
    requires
        b.wf(),
        partial_smith(b, k),
        k <= j1 < b.cols,
        k <= j2 < b.cols,
    ensures
        partial_smith(b.swap_cols(j1, j2), k),
{
    let n = b.swap_cols(j1, j2);
    assert forall|i: int, j: int| n.has(i, j) && i != j && (i < k || j < k) implies (
    #[trigger] n.e[i][j]) == 0 by {
        assert(b.e[i][swapped(j, j1, j2)] == 0);
    }
    assert forall|i: int| 0 <= i < k implies (#[trigger] n.e[i][i]) > 0 by {
        assert(b.e[i][i] > 0);
    }
    assert forall|i: int, j: int| 0 <= i < j < k implies #[trigger] divides(
        n.e[i][i],
        n.e[j][j],
    ) by {
        assert(divides(b.e[i][i], b.e[j][j]));
    }
    assert forall|d: int, i: int, j: int| 0 <= d < k && in_block(n, k, i, j) implies #[trigger] divides(
        n.e[d][d],
        n.e[i][j],
    ) by {
        assert(in_block(b, k, i, swapped(j, j1, j2)));
        assert(divides(b.e[d][d], b.e[i][swapped(j, j1, j2)]));
    }
}

/// Adding a multiple of one row at or below `k` to another keeps the
/// first `k` positions finished.
pub proof fn lemma_partial_add_row(b: Mat, k: int, i1: int, i2: int, c: int)
    requires
        b.wf(),
        partial_smith(b, k),
        k <= i1 < b.rows,
        k <= i2 < b.rows,
    ensures
        partial_smith(b.add_row_multiple(i1, i2, c), k),
{
    let n = b.add_row_multiple(i1, i2, c);
    assert forall|i: int, j: int| n.has(i, j) && i != j && (i < k || j < k) implies (
    #[trigger] n.e[i][j]) == 0 by {
        assert(b.e[i][j] == 0);
        if i == i1 {
            assert(b.e[i2][j] == 0);
            assert(c * 0 == 0);
        }
    }
    assert forall|i: int| 0 <= i < k implies (#[trigger] n.e[i][i]) > 0 by {
        assert(b.e[i][i] > 0);
    }
    assert forall|i: int, j: int| 0 <= i < j < k implies #[trigger] divides(
        n.e[i][i],
        n.e[j][j],
    ) by {
        assert(divides(b.e[i][i], b.e[j][j]));
    }
    assert forall|d: int, i: int, j: int| 0 <= d < k && in_block(n, k, i, j) implies #[trigger] divides(
        n.e[d][d],
        n.e[i][j],
    ) by {
        assert(b.e[d][d] > 0);
        assert(in_block(b, k, i, j));
        assert(divides(b.e[d][d], b.e[i][j]));
        if i == i1 {
            assert(in_block(b, k, i2, j));
            assert(divides(b.e[d][d], b.e[i2][j]));
            lemma_mod_combination(b.e[i][j], b.e[i2][j], 1, c, b.e[d][d]);
        }
    }
}

/// Adding a multiple of one column at or right of `k` to another keeps
/// the first `k` positions finished.
pub proof fn lemma_partial_add_col(b: Mat, k: int, j1: int, j2: int, c: int)
    requires
        b.wf(),
        partial_smith(b, k),
        k <= j1 < b.cols,
        k <= j2 < b.cols,
    ensures
        partial_smith(b.add_col_multiple(j1, j2, c), k),
{
    let n = b.add_col_multiple(j1, j2, c);
    assert forall|i: int, j: int| n.has(i, j) && i != j && (i < k || j < k) implies (
    #[trigger] n.e[i][j]) == 0 by {
        assert(b.e[i][j] == 0);
        if j == j1 {
            assert(b.e[i][j2] == 0);
            assert(c * 0 == 0);
        }
    }
    assert forall|i: int| 0 <= i < k implies (#[trigger] n.e[i][i]) > 0 by {
        assert(b.e[i][i] > 0);
    }
    assert forall|i: int, j: int| 0 <= i < j < k implies #[trigger] divides(
        n.e[i][i],
        n.e[j][j],
    ) by {
        assert(divides(b.e[i][i], b.e[j][j]));
    }
    assert forall|d: int, i: int, j: int| 0 <= d < k && in_block(n, k, i, j) implies #[trigger] divides(
        n.e[d][d],
        n.e[i][j],
    ) by {
        assert(b.e[d][d] > 0);
        assert(in_block(b, k, i, j));
        assert(divides(b.e[d][d], b.e[i][j]));
        if j == j1 {
            assert(in_block(b, k, i, j2));
            assert(divides(b.e[d][d], b.e[i][j2]));
            lemma_mod_combination(b.e[i][j], b.e[i][j2], 1, c, b.e[d][d]);
        }
    }
}

/// Negating a column at or right of `k` keeps the first `k` positions finished.
pub proof fn lemma_partial_negate_col(b: Mat, k: int, j1: int)
    requires
        b.wf(),
        partial_smith(b, k),
        k <= j1 < b.cols,
    ensures
        partial_smith(b.negate_col(j1), k),
{
    let n = b.negate_col(j1);
    assert forall|i: int, j: int| n.has(i, j) && i != j && (i < k || j < k) implies (
    #[trigger] n.e[i][j]) == 0 by {
        assert(b.e[i][j] == 0);
    }
    assert forall|i: int| 0 <= i < k implies (#[trigger] n.e[i][i]) > 0 by {
        assert(b.e[i][i] > 0);
    }
    assert forall|i: int, j: int| 0 <= i < j < k implies #[trigger] divides(
        n.e[i][i],
        n.e[j][j],
    ) by {
        assert(divides(b.e[i][i], b.e[j][j]));
    }
    assert forall|d: int, i: int, j: int| 0 <= d < k && in_block(n, k, i, j) implies #[trigger] divides(
        n.e[d][d],
        n.e[i][j],
    ) by {
        assert(b.e[d][d] > 0);
        assert(in_block(b, k, i, j));
        assert(divides(b.e[d][d], b.e[i][j]));
        if j == j1 {
            lemma_mod_combination(b.e[i][j], b.e[i][j], -1, 0, b.e[d][d]);
        }
    }
}

/// `(x, y)` is met before `(i, j)` when a block is read column by column,
/// each column from the top.
pub open spec fn scans_before(x: int, y: int, i: int, j: int) -> bool {
    y < j || (y == j && x < i)
}

/// `(i, j)` holds the entry of least nonzero absolute value in the block
/// of `m` that starts at `(k, k)`, and is the first such position in
/// column-by-column order.
pub open spec fn is_min_pivot(m: Mat, k: int, i: int, j: int) -> bool {
    &&& in_block(m, k, i, j)
    &&& m.e[i][j] != 0
    &&& forall|x: int, y: int|
        in_block(m, k, x, y) && (#[trigger] m.e[x][y]) != 0 ==> iabs(m.e[i][j]) <= iabs(
            m.e[x][y],
        )
    &&& forall|x: int, y: int|
        in_block(m, k, x, y) && scans_before(x, y, i, j) && (#[trigger] m.e[x][y]) != 0 ==> iabs(
            m.e[i][j],
        ) < iabs(m.e[x][y])
}

/// The pivot at `(k, k)` divides every entry below and right of it.
pub open spec fn pivot_divides_rest(m: Mat, k: int) -> bool {
    forall|x: int, y: int| in_block(m, k + 1, x, y) ==> #[trigger] divides(m.e[k][k], m.e[x][y])
}

/// `(i, j)` is the first entry, column by column, below and right of the
/// pivot at `(k, k)` that the pivot does not divide.
pub open spec fn is_first_undivided(b: Mat, k: int, i: int, j: int) -> bool {
    &&& in_block(b, k + 1, i, j)
    &&& !divides(b.e[k][k], b.e[i][j])
    &&& forall|x: int, y: int|
        in_block(b, k + 1, x, y) && scans_before(x, y, i, j) ==> #[trigger] divides(
            b.e[k][k],
            b.e[x][y],
        )
}

/// The pivot at `(k, k)` is positive and no nonzero entry of the block
/// that starts there is smaller in absolute value.
pub open spec fn pivot_is_least(m: Mat, k: int) -> bool {
    &&& m.e[k][k] > 0
    &&& forall|x: int, y: int|
        in_block(m, k, x, y) && (#[trigger] m.e[x][y]) != 0 ==> m.e[k][k] <= iabs(m.e[x][y])
}

/// Column `k` is zero below the diagonal.
pub open spec fn column_cleared(m: Mat, k: int) -> bool {
    forall|x: int| k < x < m.rows ==> (#[trigger] m.e[x][k]) == 0
}

/// Row `k` is zero right of the diagonal.
pub open spec fn row_cleared(m: Mat, k: int) -> bool {
    forall|y: int| k < y < m.cols ==> (#[trigger] m.e[k][y]) == 0
}

/// Position `k` needs no work: the pivot is positive, least in its
/// block, alone in its row and column, and divides what is left.
pub open spec fn settled(m: Mat, k: int) -> bool {
    &&& pivot_is_least(m, k)
    &&& column_cleared(m, k)
    &&& row_cleared(m, k)
    &&& pivot_divides_rest(m, k)
}

/// The state right after a repair: the pivot is unchanged and positive,
/// column `k` is still zero below it, and row `k` now holds an entry
/// that the pivot does not divide.
pub open spec fn repaired(b: Mat, k: int, pivot: int) -> bool {
    &&& b.e[k][k] == pivot
    &&& pivot > 0
    &&& column_cleared(b, k)
    &&& exists|y: int| k < y < b.cols && !(#[trigger] divides(pivot, b.e[k][y]))
}

/// A pivot that is alone in its row and column and divides the block
/// below and right of it finishes one more position.
pub proof fn lemma_settled(b: Mat, k: int)
    requires
        b.wf(),
        partial_smith(b, k),
        b.has(k, k),
        b.e[k][k] > 0,
        column_cleared(b, k),
        row_cleared(b, k),
        pivot_divides_rest(b, k),
    ensures
        partial_smith(b, k + 1),
{
    assert forall|i: int, j: int| 0 <= i < j < k + 1 implies #[trigger] divides(
        b.e[i][i],
        b.e[j][j],
    ) by {
        if j == k {
            assert(in_block(b, k, k, k));
            assert(divides(b.e[i][i], b.e[k][k]));
        } else {
            assert(divides(b.e[i][i], b.e[j][j]));
        }
    }
    assert forall|d: int, i: int, j: int| 0 <= d < k + 1 && in_block(b, k + 1, i, j) implies #[trigger] divides(
        b.e[d][d],
        b.e[i][j],
    ) by {
        if d < k {
            assert(in_block(b, k, i, j));
            assert(divides(b.e[d][d], b.e[i][j]));
        }
    }
}

/// In a matrix in Smith normal form every position whose block is not
/// zero is settled.
pub proof fn lemma_smith_form_settled(m: Mat, k: int)
    requires
        m.wf(),
        smith_form(m),
        0 <= k < diag_len(m),
        !block_is_zero(m, k),
    ensures
        settled(m, k),
        partial_smith(m, k),
{
    let r = diag_rank(m);
    let w = choose|x: int, y: int| in_block(m, k, x, y) && (#[trigger] m.e[x][y]) != 0;
    assert(w.0 == w.1);
    assert(w.0 < r);
    assert(m.e[k][k] > 0);
    assert forall|x: int, y: int| in_block(m, k, x, y) && (#[trigger] m.e[x][y]) != 0 implies m.e[k][k]
        <= iabs(m.e[x][y]) by {
        assert(x == y);
        if x > k {
            assert(x < r);
            assert(divides(m.e[k][k], m.e[x][x]));
            assert(m.e[x][x] > 0);
            lemma_multiple_at_least(m.e[x][x], m.e[k][k]);
        }
    }
    assert forall|x: int, y: int| in_block(m, k + 1, x, y) implies #[trigger] divides(
        m.e[k][k],
        m.e[x][y],
    ) by {
        if x == y && x < r {
            assert(divides(m.e[k][k], m.e[x][x]));
        } else {
            if x == y {
                assert(m.e[x][x] == 0);
            }
            assert(m.e[x][y] == 0);
            lemma_multiple_mod(m.e[k][k], 0);
            assert(m.e[k][k] * 0 == 0);
        }
    }
    assert forall|i: int, j: int| 0 <= i < j < k implies #[trigger] divides(m.e[i][i], m.e[j][j]) by {
        assert(divides(m.e[i][i], m.e[j][j]));
    }
    assert forall|d: int, i: int, j: int| 0 <= d < k && in_block(m, k, i, j) implies #[trigger] divides(
        m.e[d][d],
        m.e[i][j],
    ) by {
        assert(m.e[d][d] > 0);
        if i == j && i < r {
            if d == i {
                vstd::arithmetic::div_mod::lemma_mod_self_0(m.e[d][d]);
            } else {
                assert(divides(m.e[d][d], m.e[i][i]));
            }
        } else {
            if i == j {
                assert(m.e[i][i] == 0);
            }
            assert(m.e[i][j] == 0);
            lemma_multiple_mod(m.e[d][d], 0);
            assert(m.e[d][d] * 0 == 0);
        }
    }
}

/// A positive multiple of a positive number is at least that number.
pub proof fn lemma_multiple_at_least(x: int, d: int)
    requires
        d > 0,
        x > 0,
        x % d == 0,
    ensures
        x >= d,
{
    vstd::arithmetic::div_mod::lemma_fundamental_div_mod(x, d);
    let q = x / d;
    assert(q >= 1) by (nonlinear_arith)
        requires
            x == d * q,
            x > 0,
            d > 0,
    ;
    assert(d * q >= d) by (nonlinear_arith)
        requires
            q >= 1,
            d > 0,
    ;
}

} // verus!
