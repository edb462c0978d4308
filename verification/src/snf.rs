//! Smith normal form of an integer matrix by unimodular row and column
//! operations, with the transformation matrices carried along.

use vstd::prelude::*;
use crate::arith::{div_toward_zero, iabs, lemma_mod_abs, lemma_trem, magnitude, tdiv, trem};
use crate::course::{
    added_col, added_row, after_col_null, after_positions, after_repair, after_row_null,
    after_settle, after_swap_min, lemma_col_null_none, lemma_first_undivided_unique,
    lemma_min_pivot_unique, lemma_row_null_none, negated_col, smith_normalize_spec, swapped_cols,
    swapped_rows, widest,
};
use crate::determinant::{
    det, is_unit, lemma_det_add_row, lemma_det_identity, lemma_det_negate_row,
    lemma_det_swap_rows, lemma_det_transpose,
};
use crate::elementary::{add_col_multiple, add_row_multiple, negate_col, swap_cols, swap_rows};
use crate::error::HomologyError;
use crate::linear::{
    lemma_add_col_mul, lemma_add_row_mul, lemma_cancel_add, lemma_cancel_swap, lemma_identity_mul,
    lemma_inverse_add, lemma_inverse_negate, lemma_inverse_swap, lemma_mul_identity,
    lemma_mul_shape, lemma_negate_col_mul, lemma_swap_cols_mul, lemma_swap_rows_mul, swapped,
};
use crate::matrix::{lemma_view_wf, IntMatrix, Mat};
use crate::product::{checked_product, is_identity, product_fits};
use crate::smith_form::{
    block_is_zero, column_cleared, diag_len, diag_rank, divides, in_block, is_first_undivided,
    is_min_pivot, lemma_partial_add_col, lemma_partial_add_row, lemma_partial_done,
    lemma_partial_negate_col, lemma_partial_swap_cols, lemma_partial_swap_rows, lemma_settled,
    lemma_smith_form_settled, nonzero_diag_count, partial_smith, pivot_divides_rest,
    pivot_is_least, repaired, row_cleared, scans_before, settled, smith_form,
};

verus! {

/// A matrix `b` together with the transformations that produced it from
/// some input `a`: `p * a * q == b` and `a * q == p_inv * b`, where
/// `p_inv` is the inverse of `p`.
#[derive(Debug)]
pub struct Decomposed {
    pub p: IntMatrix,
    pub q: IntMatrix,
    pub b: IntMatrix,
    pub p_inv: IntMatrix,
}

impl Decomposed {
    /// `p * a * q == b` and `a * q == p_inv * b` with both `p` and `q`
    /// unimodular: `p_inv` is the inverse of `p`, `q` has an integer
    /// inverse too, and the determinants of `p` and of `q` are 1 or -1.
    pub open spec fn decomposes(self, a: Mat) -> bool {
        &&& a.wf()
        &&& self.b@.rows == a.rows
        &&& self.b@.cols == a.cols
        &&& self.p@.rows == a.rows
        &&& self.p@.cols == a.rows
        &&& self.q@.rows == a.cols
        &&& self.q@.cols == a.cols
        &&& self.p@.mul(a).mul(self.q@) == self.b@
        &&& a.mul(self.q@) == self.p_inv@.mul(self.b@)
        &&& self.p@.is_inverse_of(self.p_inv@)
        &&& self.q@.is_unimodular()
        &&& is_unit(det(self.p@))
        &&& is_unit(det(self.q@))
    }

    /// The four matrices of `self` have the same values as those of `o`.
    pub open spec fn same_as(self, o: Decomposed) -> bool {
        self.b@ == o.b@ && self.p@ == o.p@ && self.q@ == o.q@ && self.p_inv@ == o.p_inv@
    }

    /// A Smith normal form of `a`, with its witnesses.
    pub open spec fn is_smith_normal_form_of(self, a: Mat) -> bool {
        self.decomposes(a) && smith_form(self.b@)
    }
}

/// The state while position `k` of the diagonal is being settled.
pub open spec fn snf_inv(d: Decomposed, a: Mat, k: int) -> bool {
    d.decomposes(a) && partial_smith(d.b@, k)
}

/// Exchanges rows `i` and `k` of `b`, with `p` and `p_inv` following.
fn step_swap_rows(
    d: Decomposed,
    i: usize,
    k: usize,
    Ghost(a): Ghost<Mat>,
    Ghost(lo): Ghost<int>,
) -> (r: Decomposed)
    requires
        snf_inv(d, a, lo),
        lo <= i < a.rows,
        lo <= k < a.rows,
    ensures
        snf_inv(r, a, lo),
        r.b@ == d.b@.swap_rows(i as int, k as int),
        r.p@ == d.p@.swap_rows(i as int, k as int),
        r.p_inv@ == d.p_inv@.swap_cols(i as int, k as int),
        r.q@ == d.q@,
        r.work() == swapped_rows(d.work(), i as int, k as int),
{
    let mut r = d;
    swap_rows(&mut r.b, i, k);
    swap_rows(&mut r.p, i, k);
    swap_cols(&mut r.p_inv, i, k);
    proof {
        let (i, k) = (i as int, k as int);
        lemma_view_wf(d.p);
        lemma_view_wf(d.b);
        lemma_mul_shape(d.p@, a);
        lemma_swap_rows_mul(d.p@, a, i, k);
        lemma_swap_rows_mul(d.p@.mul(a), d.q@, i, k);
        lemma_inverse_swap(d.p@, d.p_inv@, i, k);
        lemma_cancel_swap(d.p_inv@, d.b@, i, k);
        lemma_partial_swap_rows(d.b@, lo, i, k);
        if i == k {
            assert(d.p@.swap_rows(i, k) =~~= d.p@);
        } else {
            lemma_det_swap_rows(d.p@, i, k);
        }
    }
    r
}

/// Exchanges columns `j` and `k` of `b`, with `q` following.
fn step_swap_cols(
    d: Decomposed,
    j: usize,
    k: usize,
    Ghost(a): Ghost<Mat>,
    Ghost(lo): Ghost<int>,
) -> (r: Decomposed)
    requires
        snf_inv(d, a, lo),
        lo <= j < a.cols,
        lo <= k < a.cols,
    ensures
        snf_inv(r, a, lo),
        r.b@ == d.b@.swap_cols(j as int, k as int),
        r.q@ == d.q@.swap_cols(j as int, k as int),
        r.p@ == d.p@,
        r.p_inv@ == d.p_inv@,
        r.work() == swapped_cols(d.work(), j as int, k as int),
{
    let mut r = d;
    swap_cols(&mut r.b, j, k);
    swap_cols(&mut r.q, j, k);
    proof {
        let (j, k) = (j as int, k as int);
        lemma_view_wf(d.q);
        lemma_view_wf(d.b);
        lemma_swap_cols_mul(d.p@.mul(a), d.q@, j, k);
        lemma_swap_cols_mul(a, d.q@, j, k);
        lemma_swap_cols_mul(d.p_inv@, d.b@, j, k);
        lemma_partial_swap_cols(d.b@, lo, j, k);
        let qt = d.q@.transpose();
        lemma_det_transpose(d.q@);
        lemma_det_transpose(r.q@);
        assert(d.q@.swap_cols(j, k).transpose() =~~= qt.swap_rows(j, k));
        if j == k {
            assert(qt.swap_rows(j, k) =~~= qt);
        } else {
            lemma_det_swap_rows(qt, j, k);
        }
        let qi = choose|qi: Mat| #[trigger] d.q@.is_inverse_of(qi);
        lemma_inverse_swap(qi, d.q@, j, k);
        assert(r.q@.is_inverse_of(qi.swap_rows(j, k)));
    }
    r
}

/// Negates column `k` of `b`, with `q` following.
fn step_negate_col(d: Decomposed, k: usize, Ghost(a): Ghost<Mat>, Ghost(lo): Ghost<int>) -> (r:
    Result<Decomposed, HomologyError>)
    requires
        snf_inv(d, a, lo),
        lo <= k < a.cols,
    ensures
        match r {
            Ok(n) => snf_inv(n, a, lo) && negated_col(d.work(), k as int) == Some(n.work()),
            Err(e) => e == HomologyError::Overflow && negated_col(d.work(), k as int) is None,
        },
{
    let mut r = d;
    negate_col(&mut r.b, k)?;
    negate_col(&mut r.q, k)?;
    proof {
        let k = k as int;
        lemma_view_wf(d.q);
        lemma_view_wf(d.b);
        lemma_mul_shape(d.p@, a);
        lemma_negate_col_mul(d.p@.mul(a), d.q@, k);
        lemma_negate_col_mul(a, d.q@, k);
        lemma_negate_col_mul(d.p_inv@, d.b@, k);
        lemma_partial_negate_col(d.b@, lo, k);
        let qt = d.q@.transpose();
        lemma_det_transpose(d.q@);
        lemma_det_transpose(r.q@);
        assert(d.q@.negate_col(k).transpose() =~~= qt.negate_row(k));
        lemma_det_negate_row(qt, k);
        let qi = choose|qi: Mat| #[trigger] d.q@.is_inverse_of(qi);
        lemma_inverse_negate(qi, d.q@, k);
        assert(r.q@.is_inverse_of(qi.negate_row(k)));
    }
    Ok(r)
}

/// Adds `c` times row `k` to row `i` of `b`, with `p` and `p_inv` following.
fn step_add_row(
    d: Decomposed,
    i: usize,
    k: usize,
    c: i128,
    Ghost(a): Ghost<Mat>,
    Ghost(lo): Ghost<int>,
) -> (r: Result<Decomposed, HomologyError>)
    requires
        snf_inv(d, a, lo),
        lo <= i < a.rows,
        lo <= k < a.rows,
        i != k,
    ensures
        match r {
            Ok(n) => snf_inv(n, a, lo) && added_row(d.work(), i as int, k as int, c as int)
                == Some(n.work()),
            Err(e) => e == HomologyError::Overflow && added_row(
                d.work(),
                i as int,
                k as int,
                c as int,
            ) is None,
        },
{
    let back: i128 = match 0i128.checked_sub(c) {
        Some(v) => v,
        None => {
            return Err(HomologyError::Overflow);
        },
    };
    let mut r = d;
    add_row_multiple(&mut r.b, i, k, c)?;
    add_row_multiple(&mut r.p, i, k, c)?;
    add_col_multiple(&mut r.p_inv, k, i, back)?;
    proof {
        let (i, k, c) = (i as int, k as int, c as int);
        lemma_view_wf(d.p);
        lemma_view_wf(d.b);
        lemma_mul_shape(d.p@, a);
        lemma_add_row_mul(d.p@, a, i, k, c);
        lemma_add_row_mul(d.p@.mul(a), d.q@, i, k, c);
        lemma_inverse_add(d.p@, d.p_inv@, i, k, c);
        lemma_cancel_add(d.p_inv@, d.b@, i, k, c);
        lemma_partial_add_row(d.b@, lo, i, k, c);
        lemma_det_add_row(d.p@, i, k, c);
    }
    Ok(r)
}

/// Adds `c` times column `k` to column `j` of `b`, with `q` following.
fn step_add_col(
    d: Decomposed,
    j: usize,
    k: usize,
    c: i128,
    Ghost(a): Ghost<Mat>,
    Ghost(lo): Ghost<int>,
) -> (r: Result<Decomposed, HomologyError>)
    requires
        snf_inv(d, a, lo),
        lo <= j < a.cols,
        lo <= k < a.cols,
        j != k,
    ensures
        match r {
            Ok(n) => snf_inv(n, a, lo) && added_col(d.work(), j as int, k as int, c as int)
                == Some(n.work()),
            Err(e) => e == HomologyError::Overflow && added_col(
                d.work(),
                j as int,
                k as int,
                c as int,
            ) is None,
        },
{
    let mut r = d;
    add_col_multiple(&mut r.b, j, k, c)?;
    add_col_multiple(&mut r.q, j, k, c)?;
    proof {
        let (j, k, c) = (j as int, k as int, c as int);
        lemma_view_wf(d.q);
        lemma_view_wf(d.b);
        lemma_mul_shape(d.p@, a);
        lemma_add_col_mul(d.p@.mul(a), d.q@, j, k, c);
        lemma_add_col_mul(a, d.q@, j, k, c);
        lemma_add_col_mul(d.p_inv@, d.b@, j, k, c);
        lemma_partial_add_col(d.b@, lo, j, k, c);
        let qt = d.q@.transpose();
        lemma_det_transpose(d.q@);
        lemma_det_transpose(r.q@);
        assert(d.q@.add_col_multiple(j, k, c).transpose() =~~= qt.add_row_multiple(j, k, c));
        lemma_det_add_row(qt, j, k, c);
        let qi = choose|qi: Mat| #[trigger] d.q@.is_inverse_of(qi);
        lemma_inverse_add(qi, d.q@, k, j, -c);
        assert(d.q@.add_col_multiple(j, k, -(-c)) == d.q@.add_col_multiple(j, k, c));
        assert(r.q@.is_inverse_of(qi.add_row_multiple(k, j, -c)));
    }
    Ok(r)
}

/// What a pivot search knows after reading the block up to, not
/// including, `(i, j)`.
pub open spec fn scan_state(
    m: Mat,
    k: int,
    best: Option<(usize, usize)>,
    best_mag: u128,
    i: int,
    j: int,
) -> bool {
    match best {
        None => forall|x: int, y: int|
            in_block(m, k, x, y) && scans_before(x, y, i, j) ==> (#[trigger] m.e[x][y]) == 0,
        Some((bi, bj)) => {
            &&& in_block(m, k, bi as int, bj as int)
            &&& scans_before(bi as int, bj as int, i, j)
            &&& m.e[bi as int][bj as int] != 0
            &&& best_mag == iabs(m.e[bi as int][bj as int])
            &&& forall|x: int, y: int|
                in_block(m, k, x, y) && scans_before(x, y, i, j) && (#[trigger] m.e[x][y]) != 0
                    ==> best_mag <= iabs(m.e[x][y])
            &&& forall|x: int, y: int|
                in_block(m, k, x, y) && scans_before(x, y, bi as int, bj as int) && (
                #[trigger] m.e[x][y]) != 0 ==> best_mag < iabs(m.e[x][y])
        },
    }
}

/// Finds the entry of least nonzero absolute value in the block that
/// starts at `(k, k)`, reading column by column and keeping the first of
/// equals. An empty or all-zero block has no pivot.
pub fn iamin_full(m: &IntMatrix, k: usize) -> (r: Result<(usize, usize), HomologyError>)
    ensures
        match r {
            Ok((i, j)) => is_min_pivot(m@, k as int, i as int, j as int),
            Err(e) => e == HomologyError::DegenerateMatrix && block_is_zero(m@, k as int),
        },
{
    let nr: usize = m.nrows();
    let nc: usize = m.ncols();
    let mut best: Option<(usize, usize)> = None;
    let mut best_mag: u128 = 0;
    let mut j: usize = k;
    while j < nc
        invariant
            nr == m@.rows,
            nc == m@.cols,
            k <= j,
            scan_state(m@, k as int, best, best_mag, k as int, j as int),
        decreases nc - j,
    {
        let mut i: usize = k;
        while i < nr
            invariant
                nr == m@.rows,
                nc == m@.cols,
                k <= j < nc,
                k <= i,
                scan_state(m@, k as int, best, best_mag, i as int, j as int),
            decreases nr - i,
        {
            let v: u128 = magnitude(m.get(i, j));
            let better: bool = match best {
                None => true,
                Some(_) => v < best_mag,
            };
            if v > 0 && better {
                best = Some((i, j));
                best_mag = v;
            }
            i += 1;
        }
        j += 1;
    }
    match best {
        Some(ij) => Ok(ij),
        None => Err(HomologyError::DegenerateMatrix),
    }
}

/// Finds a nonzero entry among rows `r0..r1` and columns `c0..c1`.
fn first_nonzero(m: &IntMatrix, r0: usize, r1: usize, c0: usize, c1: usize) -> (r: Option<
    (usize, usize),
>)
    requires
        r1 <= m@.rows,
        c1 <= m@.cols,
    ensures
        match r {
            Some((i, j)) => r0 <= i < r1 && c0 <= j < c1 && m@.e[i as int][j as int] != 0,
            None => forall|x: int, y: int|
                r0 <= x < r1 && c0 <= y < c1 ==> (#[trigger] m@.e[x][y]) == 0,
        },
{
    let mut j: usize = c0;
    while j < c1
        invariant
            r1 <= m@.rows,
            c1 <= m@.cols,
            c0 <= j,
            forall|x: int, y: int| r0 <= x < r1 && c0 <= y < j ==> (#[trigger] m@.e[x][y]) == 0,
        decreases c1 - j,
    {
        let mut i: usize = r0;
        while i < r1
            invariant
                r1 <= m@.rows,
                c1 <= m@.cols,
                c0 <= j < c1,
                r0 <= i,
                forall|x: int, y: int|
                    r0 <= x < r1 && c0 <= y < j ==> (#[trigger] m@.e[x][y]) == 0,
                forall|x: int| r0 <= x < i ==> (#[trigger] m@.e[x][j as int]) == 0,
            decreases r1 - i,
        {
            if m.get(i, j) != 0 {
                return Some((i, j));
            }
            i += 1;
        }
        j += 1;
    }
    None
}

/// Whether every entry of `m` is zero.
pub fn is_zeros(m: &IntMatrix) -> (r: bool)
    ensures
        r == m@.is_zero(),
{
    let found = first_nonzero(m, 0, m.nrows(), 0, m.ncols());
    found.is_none()
}

/// Finds, in the block strictly below and right of the pivot at `(k, k)`,
/// the first entry in column-by-column order that the pivot does not divide.
pub fn mod_full(m: &IntMatrix, k: usize) -> (r: Option<(usize, usize)>)
    requires
        m@.has(k as int, k as int),
        m@.e[k as int][k as int] > 0,
    ensures
        match r {
            Some((i, j)) => is_first_undivided(m@, k as int, i as int, j as int),
            None => pivot_divides_rest(m@, k as int),
        },
{
    let nr: usize = m.nrows();
    let nc: usize = m.ncols();
    let pivot: i128 = m.get(k, k);
    let mut j: usize = k + 1;
    while j < nc
        invariant
            nr == m@.rows,
            nc == m@.cols,
            k < nr,
            k < j,
            pivot > 0,
            pivot == m@.e[k as int][k as int],
            forall|x: int, y: int|
                in_block(m@, k + 1, x, y) && y < j ==> #[trigger] divides(pivot as int, m@.e[x][y]),
        decreases nc - j,
    {
        let mut i: usize = k + 1;
        while i < nr
            invariant
                nr == m@.rows,
                nc == m@.cols,
                k < nr,
                k < j < nc,
                k < i,
                pivot > 0,
                pivot == m@.e[k as int][k as int],
                forall|x: int, y: int|
                    in_block(m@, k + 1, x, y) && scans_before(x, y, i as int, j as int)
                        ==> #[trigger] divides(pivot as int, m@.e[x][y]),
            decreases nr - i,
        {
            let e: i128 = m.get(i, j);
            proof {
                lemma_mod_abs(e as int, pivot as int);
            }
            if e % pivot != 0 {
                return Some((i, j));
            }
            i += 1;
        }
        j += 1;
    }
    None
}

/// Whether the pivot at `(k, k)` divides every entry strictly below and
/// right of it.
pub fn is_mod_zeros(m: &IntMatrix, k: usize) -> (r: bool)
    requires
        m@.has(k as int, k as int),
        m@.e[k as int][k as int] > 0,
    ensures
        r == pivot_divides_rest(m@, k as int),
{
    let found = mod_full(m, k);
    found.is_none()
}

/// Brings the entry of least nonzero absolute value of the block that
/// starts at `(k, k)` to `(k, k)` by one row and one column exchange, and
/// makes it positive by negating column `k` if need be. Where `(k, k)`
/// already holds the least value and is positive, nothing changes and
/// nothing can fail.
fn swap_min(d: Decomposed, k: usize, Ghost(a): Ghost<Mat>) -> (r: Result<Decomposed, HomologyError>)
    requires
        snf_inv(d, a, k as int),
        d.b@.has(k as int, k as int),
        !block_is_zero(d.b@, k as int),
    ensures
        match r {
            Ok(n) => {
                &&& snf_inv(n, a, k as int)
                &&& pivot_is_least(n.b@, k as int)
                &&& forall|x: int, y: int|
                    in_block(d.b@, k as int, x, y) && (#[trigger] d.b@.e[x][y]) != 0
                        ==> n.b@.e[k as int][k as int] <= iabs(d.b@.e[x][y])
                &&& d.b@.e[k as int][k as int] == n.b@.e[k as int][k as int] ==> n.same_as(d)
                &&& pivot_is_least(d.b@, k as int) ==> n.same_as(d)
                &&& after_swap_min(d.work(), k as int) == Some(n.work())
            },
            Err(e) => e == HomologyError::Overflow && after_swap_min(d.work(), k as int) is None,
        },
        pivot_is_least(d.b@, k as int) ==> r is Ok,
{
    let ghost b0 = d.b@;
    let (i, j) = match iamin_full(&d.b, k) {
        Ok(ij) => ij,
        Err(e) => {
            return Err(e);
        },
    };
    proof {
        let found = (i as int, j as int);
        assert(is_min_pivot(b0, k as int, found.0, found.1));
        let at = choose|at: (int, int)| is_min_pivot(b0, k as int, at.0, at.1);
        lemma_min_pivot_unique(b0, k as int, found.0, found.1, at.0, at.1);
        if pivot_is_least(b0, k as int) {
            assert(in_block(b0, k as int, k as int, k as int));
            assert(b0.e[k as int][k as int] == iabs(b0.e[i as int][j as int]));
        }
    }
    let d1 = step_swap_rows(d, k, i, Ghost(a), Ghost(k as int));
    let d2 = step_swap_cols(d1, k, j, Ghost(a), Ghost(k as int));
    let ghost b2 = d2.b@;
    proof {
        lemma_view_wf(d.b);
        lemma_view_wf(d.p);
        lemma_view_wf(d.q);
        lemma_view_wf(d.p_inv);
        assert(b2.e[k as int][k as int] == b0.e[i as int][j as int]);
        assert forall|x: int, y: int| in_block(b2, k as int, x, y) implies #[trigger] b2.e[x][y]
            == b0.e[swapped(x, k as int, i as int)][swapped(y, k as int, j as int)] && in_block(
            b0,
            k as int,
            swapped(x, k as int, i as int),
            swapped(y, k as int, j as int),
        ) by {}
        if b0.e[k as int][k as int] == iabs(b0.e[i as int][j as int]) {
            if i != k || j != k {
                assert(scans_before(k as int, k as int, i as int, j as int));
                assert(b0.e[k as int][k as int] != 0);
            }
            assert(b2 =~~= b0);
            assert(d2.p@ =~~= d.p@);
            assert(d2.q@ =~~= d.q@);
            assert(d2.p_inv@ =~~= d.p_inv@);
        }
    }
    let v: i128 = d2.b.get(k, k);
    if v < 0 {
        let d3 = step_negate_col(d2, k, Ghost(a), Ghost(k as int))?;
        proof {
            let b3 = d3.b@;
            assert forall|x: int, y: int| in_block(b3, k as int, x, y) implies iabs(
                #[trigger] b3.e[x][y],
            ) == iabs(b2.e[x][y]) by {}
        }
        Ok(d3)
    } else {
        Ok(d2)
    }
}

/// Clears column `k` below the pivot as far as one division goes: from
/// each lower row, the truncated quotient of its entry in column `k` by
/// the pivot, times row `k`, is subtracted. What stays in column `k` is
/// the truncated remainder. Where the column is clear already, nothing
/// changes and nothing can fail.
fn row_null(d: Decomposed, k: usize, Ghost(a): Ghost<Mat>) -> (r: Result<Decomposed, HomologyError>)
    requires
        snf_inv(d, a, k as int),
        d.b@.has(k as int, k as int),
        d.b@.e[k as int][k as int] > 0,
    ensures
        match r {
            Ok(n) => {
                &&& snf_inv(n, a, k as int)
                &&& forall|y: int|
                    0 <= y < a.cols ==> (#[trigger] n.b@.e[k as int][y]) == d.b@.e[k as int][y]
                &&& forall|x: int|
                    k < x < a.rows ==> (#[trigger] n.b@.e[x][k as int]) == trem(
                        d.b@.e[x][k as int],
                        d.b@.e[k as int][k as int],
                    )
                &&& column_cleared(d.b@, k as int) ==> n.same_as(d)
                &&& after_row_null(d.work(), k as int, a.rows as int) == Some(n.work())
            },
            Err(e) => e == HomologyError::Overflow && after_row_null(
                d.work(),
                k as int,
                a.rows as int,
            ) is None,
        },
        column_cleared(d.b@, k as int) ==> r is Ok,
{
    let ghost d0 = d;
    let ghost b0 = d.b@;
    let nr: usize = d.b.nrows();
    let pivot: i128 = d.b.get(k, k);
    let mut cur = d;
    let mut i: usize = k + 1;
    while i < nr
        invariant
            snf_inv(cur, a, k as int),
            nr == a.rows,
            k < i,
            k < a.cols,
            pivot > 0,
            pivot == b0.e[k as int][k as int],
            b0 == d0.b@,
            d0 == d,
            b0.rows == a.rows,
            b0.cols == a.cols,
            forall|y: int| 0 <= y < a.cols ==> (#[trigger] cur.b@.e[k as int][y]) == b0.e[k as int][y],
            forall|x: int, y: int|
                i <= x < a.rows && 0 <= y < a.cols ==> (#[trigger] cur.b@.e[x][y]) == b0.e[x][y],
            forall|x: int|
                k < x < i && x < a.rows ==> (#[trigger] cur.b@.e[x][k as int]) == trem(
                    b0.e[x][k as int],
                    pivot as int,
                ),
            (forall|x: int| k < x < i && x < a.rows ==> (#[trigger] b0.e[x][k as int]) == 0)
                ==> cur.same_as(d0),
            i <= nr,
            after_row_null(d0.work(), k as int, i as int) == Some(cur.work()),
        decreases nr - i,
    {
        let ghost before_step = cur.work();
        let x: i128 = cur.b.get(i, k);
        let q: i128 = div_toward_zero(x, pivot);
        proof {
            lemma_trem(x as int, pivot as int);
            if b0.e[i as int][k as int] == 0 {
                assert(tdiv(0, pivot as int) == 0) by (nonlinear_arith)
                    requires
                        tdiv(0, pivot as int) == 0 * crate::arith::signum(pivot as int) * (iabs(0)
                            / iabs(pivot as int)),
                ;
            }
        }
        if q != 0 {
            let c: i128 = match 0i128.checked_sub(q) {
                Some(c) => c,
                None => {
                    proof {
                        assert(after_row_null(d0.work(), k as int, i + 1) is None);
                        lemma_row_null_none(d0.work(), k as int, i + 1, nr as int);
                    }
                    return Err(HomologyError::Overflow);
                },
            };
            let ghost before = cur.b@;
            cur = match step_add_row(cur, i, k, c, Ghost(a), Ghost(k as int)) {
                Ok(n) => n,
                Err(e) => {
                    proof {
                        assert(after_row_null(d0.work(), k as int, i + 1) is None);
                        lemma_row_null_none(d0.work(), k as int, i + 1, nr as int);
                    }
                    return Err(e);
                },
            };
            proof {
                assert(cur.b@.e[i as int][k as int] == before.e[i as int][k as int] + c
                    * before.e[k as int][k as int]);
                assert((-q) * pivot == -(q * pivot)) by (nonlinear_arith);
            }
        }
        assert(after_row_null(d0.work(), k as int, i + 1) == Some(cur.work()));
        i += 1;
    }
    Ok(cur)
}

/// Clears row `k` right of the pivot as far as one division goes, once
/// column `k` is zero below the pivot: only row `k` changes, and what
/// stays in it is the truncated remainder of each entry by the pivot.
/// Where the row is clear already, nothing changes and nothing can fail.
fn col_null(d: Decomposed, k: usize, Ghost(a): Ghost<Mat>) -> (r: Result<Decomposed, HomologyError>)
    requires
        snf_inv(d, a, k as int),
        d.b@.has(k as int, k as int),
        d.b@.e[k as int][k as int] > 0,
        column_cleared(d.b@, k as int),
    ensures
        match r {
            Ok(n) => {
                &&& snf_inv(n, a, k as int)
                &&& forall|x: int, y: int|
                    n.b@.has(x, y) && (x != k || y <= k) ==> (#[trigger] n.b@.e[x][y])
                        == d.b@.e[x][y]
                &&& forall|y: int|
                    k < y < a.cols ==> (#[trigger] n.b@.e[k as int][y]) == trem(
                        d.b@.e[k as int][y],
                        d.b@.e[k as int][k as int],
                    )
                &&& row_cleared(d.b@, k as int) ==> n.same_as(d)
                &&& after_col_null(d.work(), k as int, a.cols as int) == Some(n.work())
            },
            Err(e) => e == HomologyError::Overflow && after_col_null(
                d.work(),
                k as int,
                a.cols as int,
            ) is None,
        },
        row_cleared(d.b@, k as int) ==> r is Ok,
{
    let ghost d0 = d;
    let ghost b0 = d.b@;
    let nc: usize = d.b.ncols();
    let pivot: i128 = d.b.get(k, k);
    let mut cur = d;
    let mut j: usize = k + 1;
    while j < nc
        invariant
            snf_inv(cur, a, k as int),
            nc == a.cols,
            k < j,
            k < a.rows,
            pivot > 0,
            pivot == b0.e[k as int][k as int],
            b0 == d0.b@,
            d0 == d,
            b0.rows == a.rows,
            b0.cols == a.cols,
            partial_smith(b0, k as int),
            column_cleared(b0, k as int),
            forall|x: int, y: int|
                cur.b@.has(x, y) && (x != k || y <= k || y >= j) ==> (#[trigger] cur.b@.e[x][y])
                    == b0.e[x][y],
            forall|y: int|
                k < y < j && y < a.cols ==> (#[trigger] cur.b@.e[k as int][y]) == trem(
                    b0.e[k as int][y],
                    pivot as int,
                ),
            (forall|y: int| k < y < j && y < a.cols ==> (#[trigger] b0.e[k as int][y]) == 0)
                ==> cur.same_as(d0),
            j <= nc,
            after_col_null(d0.work(), k as int, j as int) == Some(cur.work()),
        decreases nc - j,
    {
        let x: i128 = cur.b.get(k, j);
        let q: i128 = div_toward_zero(x, pivot);
        proof {
            lemma_trem(x as int, pivot as int);
            if b0.e[k as int][j as int] == 0 {
                assert(tdiv(0, pivot as int) == 0) by (nonlinear_arith)
                    requires
                        tdiv(0, pivot as int) == 0 * crate::arith::signum(pivot as int) * (iabs(0)
                            / iabs(pivot as int)),
                ;
            }
        }
        if q != 0 {
            let c: i128 = match 0i128.checked_sub(q) {
                Some(c) => c,
                None => {
                    proof {
                        assert(after_col_null(d0.work(), k as int, j + 1) is None);
                        lemma_col_null_none(d0.work(), k as int, j + 1, nc as int);
                    }
                    return Err(HomologyError::Overflow);
                },
            };
            let ghost before = cur.b@;
            cur = match step_add_col(cur, j, k, c, Ghost(a), Ghost(k as int)) {
                Ok(n) => n,
                Err(e) => {
                    proof {
                        assert(after_col_null(d0.work(), k as int, j + 1) is None);
                        lemma_col_null_none(d0.work(), k as int, j + 1, nc as int);
                    }
                    return Err(e);
                },
            };
            proof {
                assert((-q) * pivot == -(q * pivot)) by (nonlinear_arith);
                assert forall|x: int, y: int|
                    cur.b@.has(x, y) && (x != k || y <= k || y >= j + 1) implies (
                #[trigger] cur.b@.e[x][y]) == b0.e[x][y] by {
                    if y == j {
                        assert(before.e[x][k as int] == b0.e[x][k as int]);
                        assert(b0.e[x][k as int] == 0);
                        assert(c * 0 == 0);
                    }
                }
            }
        }
        assert(after_col_null(d0.work(), k as int, j + 1) == Some(cur.work()));
        j += 1;
    }
    Ok(cur)
}

/// Repairs divisibility: adds to row `k` the row of the first entry
/// below and right of the pivot that the pivot does not divide.
fn remn_mod(d: Decomposed, k: usize, Ghost(a): Ghost<Mat>) -> (r: Result<Decomposed, HomologyError>)
    requires
        snf_inv(d, a, k as int),
        d.b@.has(k as int, k as int),
        d.b@.e[k as int][k as int] > 0,
        column_cleared(d.b@, k as int),
        row_cleared(d.b@, k as int),
        !pivot_divides_rest(d.b@, k as int),
    ensures
        match r {
            Ok(n) => snf_inv(n, a, k as int) && repaired(
                n.b@,
                k as int,
                d.b@.e[k as int][k as int],
            ) && after_repair(d.work(), k as int) == Some(n.work()),
            Err(e) => e == HomologyError::Overflow && after_repair(d.work(), k as int) is None,
        },
{
    let ghost b0 = d.b@;
    let (i, j) = match mod_full(&d.b, k) {
        Some(ij) => ij,
        None => {
            return Err(HomologyError::Overflow);
        },
    };
    proof {
        let found = (i as int, j as int);
        assert(is_first_undivided(b0, k as int, found.0, found.1));
        let at = choose|at: (int, int)| is_first_undivided(b0, k as int, at.0, at.1);
        lemma_first_undivided_unique(b0, k as int, found.0, found.1, at.0, at.1);
    }
    let n = step_add_row(d, k, i, 1, Ghost(a), Ghost(k as int))?;
    proof {
        let b1 = n.b@;
        assert(b1.e[k as int][j as int] == b0.e[k as int][j as int] + 1 * b0.e[i as int][j as int]);
        assert(b1.e[k as int][k as int] == b0.e[k as int][k as int] + 1 * b0.e[i as int][k as int]);
        assert(!divides(b0.e[k as int][k as int], b1.e[k as int][j as int]));
        assert forall|x: int| k < x < b1.rows implies (#[trigger] b1.e[x][k as int]) == 0 by {
            assert(b1.e[x][k as int] == b0.e[x][k as int]);
        }
    }
    Ok(n)
}

/// Settles position `k` of the diagonal: pivots, clears column and row
/// `k`, and repairs divisibility, again and again, until the pivot stands
/// alone in its row and column and divides all that is left. Where the
/// position is settled already, nothing changes and nothing can fail.
///
/// Every round either lowers the least nonzero absolute value in the
/// block or is a repair, and the round after a repair lowers it.
fn settle_pivot(d: Decomposed, k: usize, Ghost(a): Ghost<Mat>) -> (r: Result<
    Decomposed,
    HomologyError,
>)
    requires
        snf_inv(d, a, k as int),
        d.b@.has(k as int, k as int),
        !block_is_zero(d.b@, k as int),
    ensures
        match r {
            Ok(n) => snf_inv(n, a, k + 1) && (settled(d.b@, k as int) ==> n.same_as(d))
                && after_settle(d.work(), k as int, widest(), true) == Some(n.work()),
            Err(e) => e == HomologyError::Overflow && after_settle(
                d.work(),
                k as int,
                widest(),
                true,
            ) is None,
        },
        settled(d.b@, k as int) ==> r is Ok,
{
    let ghost d0 = d;
    let nr: usize = d.b.nrows();
    let nc: usize = d.b.ncols();
    let ghost w0 = choose|x: int, y: int|
        in_block(d.b@, k as int, x, y) && (#[trigger] d.b@.e[x][y]) != 0;
    let ghost mut wx: int = w0.0;
    let ghost mut wy: int = w0.1;
    let ghost mut bound: int = widest();
    let ghost mut fresh: bool = true;
    let ghost mut untouched: bool = true;
    proof {
        lemma_view_wf(d.b);
    }
    let mut cur = d;
    loop
        invariant
            d0 == d,
            after_settle(d0.work(), k as int, widest(), true) == after_settle(
                cur.work(),
                k as int,
                bound,
                fresh,
            ),
            snf_inv(cur, a, k as int),
            nr == a.rows,
            nc == a.cols,
            k < nr,
            k < nc,
            in_block(cur.b@, k as int, wx, wy),
            cur.b@.e[wx][wy] != 0,
            iabs(cur.b@.e[wx][wy]) <= bound,
            !fresh ==> repaired(cur.b@, k as int, bound),
            untouched ==> cur.same_as(d0),
            !untouched ==> !settled(d0.b@, k as int),
        decreases bound, (if fresh { 1int } else { 0int }),
    {
        let ghost head = cur.b@;
        let ghost at_head = cur;
        let d1 = swap_min(cur, k, Ghost(a))?;
        let pivot: i128 = d1.b.get(k, k);
        let ghost b1 = d1.b@;
        assert(pivot <= bound) by {
            assert(head.e[wx][wy] != 0);
        }
        proof {
            if pivot_is_least(head, k as int) {
                assert(in_block(head, k as int, k as int, k as int));
                assert(d1.same_as(at_head));
            }
        }
        let d2 = row_null(d1, k, Ghost(a))?;
        let ghost b2 = d2.b@;
        match first_nonzero(&d2.b, k + 1, nr, k, k + 1) {
            Some((i, _)) => {
                proof {
                    lemma_trem(b1.e[i as int][k as int], pivot as int);
                    wx = i as int;
                    wy = k as int;
                    bound = pivot - 1;
                    fresh = true;
                    untouched = false;
                }
                cur = d2;
            },
            None => {
                let d3 = col_null(d2, k, Ghost(a))?;
                let ghost b3 = d3.b@;
                match first_nonzero(&d3.b, k, k + 1, k + 1, nc) {
                    Some((_, j)) => {
                        proof {
                            lemma_trem(b2.e[k as int][j as int], pivot as int);
                            wx = k as int;
                            wy = j as int;
                            bound = pivot - 1;
                            fresh = true;
                            untouched = false;
                        }
                        cur = d3;
                    },
                    None => {
                        assert(b3.e[k as int][k as int] == pivot);
                        assert forall|x: int| k < x < a.rows implies (#[trigger] b3.e[x][k as int])
                            == 0 by {
                            assert(b3.e[x][k as int] == b2.e[x][k as int]);
                        }
                        if is_mod_zeros(&d3.b, k) {
                            proof {
                                lemma_settled(b3, k as int);
                            }
                            return Ok(d3);
                        }
                        proof {
                            if !fresh && pivot == bound {
                                assert(b1 == head);
                                assert(b2 == b1);
                                let y = choose|y: int|
                                    k < y < head.cols && !(#[trigger] divides(
                                        bound,
                                        head.e[k as int][y],
                                    ));
                                lemma_trem(head.e[k as int][y], bound);
                                assert(b3.e[k as int][y] == 0);
                                assert(false);
                            }
                        }
                        cur = remn_mod(d3, k, Ghost(a))?;
                        proof {
                            wx = k as int;
                            wy = k as int;
                            bound = pivot as int;
                            fresh = false;
                            untouched = false;
                        }
                    },
                }
            },
        }
    }
}

/// Computes a Smith normal form of `a`: unimodular `p` and `q`, of
/// determinant 1 or -1, and a diagonal `b` with `p * a * q == b`, the
/// positive diagonal entries first and each dividing the next. `p_inv`
/// is the inverse of `p`.
///
/// The decomposition is the one that the reduction of `a` ends with,
/// [`smith_normalize_spec`], and the call fails exactly when that
/// reduction leaves the machine's integers: when an intermediate value
/// does not fit `i128`, or a transformation matrix has more entries
/// than a `usize` can count. A matrix that is in Smith normal form
/// already, an all-zero or empty one among them, is returned as it is,
/// with identities for `p` and `q`, as soon as these can be allocated.
pub fn smith_normalize(a: &IntMatrix) -> (r: Result<Decomposed, HomologyError>)
    ensures
        match r {
            Ok(d) => d.is_smith_normal_form_of(a@) && smith_normalize_spec(a@) == Some(d.work()),
            Err(e) => e == HomologyError::Overflow && smith_normalize_spec(a@) is None,
        },
        smith_form(a@) && a@.rows * a@.rows <= usize::MAX && a@.cols * a@.cols <= usize::MAX ==> (r
            matches Ok(d) && d.b@ == a@ && d.p@ == Mat::identity(a@.rows) && d.q@ == Mat::identity(
            a@.cols,
        ) && d.p_inv@ == Mat::identity(a@.rows)),
{
    let nr: usize = a.nrows();
    let nc: usize = a.ncols();
    if nr.checked_mul(nr).is_none() || nc.checked_mul(nc).is_none() {
        return Err(HomologyError::Overflow);
    }
    let mut d = Decomposed {
        p: IntMatrix::identity(nr),
        q: IntMatrix::identity(nc),
        b: a.copy(),
        p_inv: IntMatrix::identity(nr),
    };
    proof {
        lemma_view_wf(*a);
        lemma_view_wf(d.p);
        lemma_view_wf(d.q);
        lemma_identity_mul(a@);
        lemma_mul_identity(a@);
        lemma_identity_mul(Mat::identity(nr as nat));
        lemma_identity_mul(Mat::identity(nc as nat));
        assert(d.p@.is_inverse_of(d.p_inv@));
        assert(d.q@.is_inverse_of(d.q@));
        lemma_det_identity(nr as nat);
        lemma_det_identity(nc as nat);
    }
    let n: usize = if nr < nc {
        nr
    } else {
        nc
    };
    let ghost w0 = d.work();
    let mut k: usize = 0;
    while k < n
        invariant
            snf_inv(d, a@, k as int),
            nr == a@.rows,
            nc == a@.cols,
            n == diag_len(a@),
            k <= n,
            nr * nr <= usize::MAX,
            nc * nc <= usize::MAX,
            smith_normalize_spec(a@) == after_positions(w0, 0, n as int),
            after_positions(w0, 0, n as int) == after_positions(d.work(), k as int, n as int),
            smith_form(a@) ==> d.b@ == a@ && d.p@ == Mat::identity(a@.rows) && d.q@
                == Mat::identity(a@.cols) && d.p_inv@ == Mat::identity(a@.rows),
        ensures
            snf_inv(d, a@, k as int),
            k == n || block_is_zero(d.b@, k as int),
            smith_normalize_spec(a@) == Some(d.work()),
            smith_form(a@) ==> d.b@ == a@ && d.p@ == Mat::identity(a@.rows) && d.q@
                == Mat::identity(a@.cols) && d.p_inv@ == Mat::identity(a@.rows),
        decreases n - k,
    {
        if first_nonzero(&d.b, k, nr, k, nc).is_none() {
            break ;
        }
        proof {
            if smith_form(a@) {
                lemma_smith_form_settled(a@, k as int);
            }
        }
        d = settle_pivot(d, k, Ghost(a@))?;
        k += 1;
    }
    proof {
        lemma_view_wf(d.b);
        lemma_partial_done(d.b@, k as int);
    }
    Ok(d)
}

/// The rank of a matrix in Smith normal form: the number of nonzero
/// entries on its diagonal.
pub fn rank(d: &IntMatrix) -> (r: usize)
    ensures
        r == diag_rank(d@),
{
    let nr: usize = d.nrows();
    let nc: usize = d.ncols();
    let n: usize = if nr < nc {
        nr
    } else {
        nc
    };
    let mut r: usize = 0;
    let mut i: usize = 0;
    while i < n
        invariant
            n == diag_len(d@),
            nr == d@.rows,
            nc == d@.cols,
            i <= n,
            r <= i,
            r == nonzero_diag_count(d@, i as int),
        decreases n - i,
    {
        if d.get(i, i) != 0 {
            r += 1;
        }
        i += 1;
    }
    r
}

impl Decomposed {
    /// Multiplies `p` and `p_inv` out, in both orders, and reports
    /// `TransformNotInvertible` exactly when they are not inverse to
    /// each other. `Overflow` means that a product could not be summed
    /// up in `i128`, so that nothing was decided.
    ///
    /// A decomposition that [`smith_normalize`] returned always passes;
    /// the test is for one that was put together by hand.
    pub fn validate_inverse(&self) -> (r: Result<(), HomologyError>)
        ensures
            match r {
                Ok(()) => self.p@.is_inverse_of(self.p_inv@),
                Err(HomologyError::TransformNotInvertible) => !self.p@.is_inverse_of(self.p_inv@),
                Err(HomologyError::Overflow) => !product_fits(self.p@, self.p_inv@)
                    || !product_fits(self.p_inv@, self.p@),
                Err(_) => false,
            },
    {
        let n: usize = self.p.nrows();
        if self.p.ncols() != n || self.p_inv.nrows() != n || self.p_inv.ncols() != n {
            return Err(HomologyError::TransformNotInvertible);
        }
        proof {
            lemma_view_wf(self.p);
            lemma_view_wf(self.p_inv);
        }
        let forth = checked_product(&self.p, &self.p_inv)?;
        if !is_identity(&forth) {
            return Err(HomologyError::TransformNotInvertible);
        }
        let back = checked_product(&self.p_inv, &self.p)?;
        if !is_identity(&back) {
            return Err(HomologyError::TransformNotInvertible);
        }
        Ok(())
    }
}

} // verus!
