//! The course of the reduction to Smith normal form as a function of the
//! input: what the matrices are after each part of it, when every value
//! is an `i128`, and where a value leaves that range.

use vstd::prelude::*;
use crate::arith::{fits, tdiv};
use crate::matrix::Mat;
use crate::smith_form::{
    block_is_zero, column_cleared, diag_len, divides, is_first_undivided, is_min_pivot,
    pivot_divides_rest, row_cleared, scans_before,
};
use crate::snf::Decomposed;

verus! {

/// The four matrices of a decomposition in progress.
pub struct Work {
    pub b: Mat,
    pub p: Mat,
    pub q: Mat,
    pub p_inv: Mat,
}

impl Decomposed {
    /// The values of the four matrices.
    pub open spec fn work(self) -> Work {
        Work { b: self.b@, p: self.p@, q: self.q@, p_inv: self.p_inv@ }
    }
}

/// Rows `i` and `k` of `b` exchanged, with `p` and `p_inv` following.
pub open spec fn swapped_rows(w: Work, i: int, k: int) -> Work {
    Work { b: w.b.swap_rows(i, k), p: w.p.swap_rows(i, k), q: w.q, p_inv: w.p_inv.swap_cols(i, k) }
}

/// Columns `j` and `k` of `b` exchanged, with `q` following.
pub open spec fn swapped_cols(w: Work, j: int, k: int) -> Work {
    Work { b: w.b.swap_cols(j, k), p: w.p, q: w.q.swap_cols(j, k), p_inv: w.p_inv }
}

/// Column `k` of `b` negated, with `q` following; `None` when a negated
/// entry does not fit.
pub open spec fn negated_col(w: Work, k: int) -> Option<Work> {
    if w.b.col_negation_fits(k) && w.q.col_negation_fits(k) {
        Some(Work { b: w.b.negate_col(k), p: w.p, q: w.q.negate_col(k), p_inv: w.p_inv })
    } else {
        None
    }
}

/// `c` times row `k` added to row `i` of `b`, with `p` and `p_inv`
/// following; `None` when a product or a sum does not fit.
pub open spec fn added_row(w: Work, i: int, k: int, c: int) -> Option<Work> {
    if fits(-c) && w.b.row_update_fits(i, k, c) && w.p.row_update_fits(i, k, c)
        && w.p_inv.col_update_fits(k, i, -c) {
        Some(
            Work {
                b: w.b.add_row_multiple(i, k, c),
                p: w.p.add_row_multiple(i, k, c),
                q: w.q,
                p_inv: w.p_inv.add_col_multiple(k, i, -c),
            },
        )
    } else {
        None
    }
}

/// `c` times column `k` added to column `j` of `b`, with `q` following;
/// `None` when a product or a sum does not fit.
pub open spec fn added_col(w: Work, j: int, k: int, c: int) -> Option<Work> {
    if w.b.col_update_fits(j, k, c) && w.q.col_update_fits(j, k, c) {
        Some(
            Work {
                b: w.b.add_col_multiple(j, k, c),
                p: w.p,
                q: w.q.add_col_multiple(j, k, c),
                p_inv: w.p_inv,
            },
        )
    } else {
        None
    }
}

/// After pivoting at `k`: the least entry of the block is brought to
/// `(k, k)` and made positive.
pub open spec fn after_swap_min(w: Work, k: int) -> Option<Work> {
    let at = choose|at: (int, int)| is_min_pivot(w.b, k, at.0, at.1);
    let w2 = swapped_cols(swapped_rows(w, k, at.0), k, at.1);
    if w2.b.e[k][k] < 0 {
        negated_col(w2, k)
    } else {
        Some(w2)
    }
}

/// After the rows from `k + 1` up to, not including, `n` have each lost
/// the truncated quotient of their entry in column `k` by the pivot,
/// times row `k`.
pub open spec fn after_row_null(w: Work, k: int, n: int) -> Option<Work>
    decreases n - k,
{
    if n <= k + 1 {
        Some(w)
    } else {
        match after_row_null(w, k, n - 1) {
            None => None,
            Some(w1) => {
                let q = tdiv(w1.b.e[n - 1][k], w1.b.e[k][k]);
                if q == 0 {
                    Some(w1)
                } else if !fits(-q) {
                    None
                } else {
                    added_row(w1, n - 1, k, -q)
                }
            },
        }
    }
}

/// After the columns from `k + 1` up to, not including, `n` have each
/// lost the truncated quotient of their entry in row `k` by the pivot,
/// times column `k`.
pub open spec fn after_col_null(w: Work, k: int, n: int) -> Option<Work>
    decreases n - k,
{
    if n <= k + 1 {
        Some(w)
    } else {
        match after_col_null(w, k, n - 1) {
            None => None,
            Some(w1) => {
                let q = tdiv(w1.b.e[k][n - 1], w1.b.e[k][k]);
                if q == 0 {
                    Some(w1)
                } else if !fits(-q) {
                    None
                } else {
                    added_col(w1, n - 1, k, -q)
                }
            },
        }
    }
}

/// After a repair: the row of the first entry that the pivot does not
/// divide is added to row `k`.
pub open spec fn after_repair(w: Work, k: int) -> Option<Work> {
    let at = choose|at: (int, int)| is_first_undivided(w.b, k, at.0, at.1);
    added_row(w, k, at.0, 1)
}

/// After position `k` is settled: rounds of pivoting, clearing column
/// and row `k` and repairing, until the pivot stands alone and divides
/// what is left. `bound` limits the pivot of the next round from above
/// and `fresh` tells that the last round was no repair; the two make
/// the rounds finite, and no round of an actual reduction breaks them.
pub open spec fn after_settle(w: Work, k: int, bound: int, fresh: bool) -> Option<Work>
    decreases bound, (if fresh {
        1int
    } else {
        0int
    }),
{
    match after_swap_min(w, k) {
        None => None,
        Some(w1) => {
            let pivot = w1.b.e[k][k];
            if !(0 < pivot <= bound) {
                None
            } else {
                match after_row_null(w1, k, w1.b.rows as int) {
                    None => None,
                    Some(w2) => if !column_cleared(w2.b, k) {
                        after_settle(w2, k, pivot - 1, true)
                    } else {
                        match after_col_null(w2, k, w2.b.cols as int) {
                            None => None,
                            Some(w3) => if !row_cleared(w3.b, k) {
                                after_settle(w3, k, pivot - 1, true)
                            } else if pivot_divides_rest(w3.b, k) {
                                Some(w3)
                            } else {
                                match after_repair(w3, k) {
                                    None => None,
                                    Some(w4) => if pivot < bound || fresh {
                                        after_settle(w4, k, pivot, false)
                                    } else {
                                        None
                                    },
                                }
                            },
                        }
                    },
                }
            }
        },
    }
}

/// The largest absolute value of an `i128`.
pub open spec fn widest() -> int {
    i128::MAX + 1
}

/// After the positions from `k` up to, not including, `n` are settled,
/// one after the other, or the block that is left is zero.
pub open spec fn after_positions(w: Work, k: int, n: int) -> Option<Work>
    decreases n - k,
{
    if k >= n || block_is_zero(w.b, k) {
        Some(w)
    } else {
        match after_settle(w, k, widest(), true) {
            None => None,
            Some(w1) => after_positions(w1, k + 1, n),
        }
    }
}

/// The reduction of `a` to Smith normal form, started from identities
/// for `p`, `q` and `p_inv`: the matrices it ends with, or `None` when a
/// value on the way does not fit in `i128`.
pub open spec fn smith_run(a: Mat) -> Option<Work> {
    after_positions(
        Work {
            b: a,
            p: Mat::identity(a.rows),
            q: Mat::identity(a.cols),
            p_inv: Mat::identity(a.rows),
        },
        0,
        diag_len(a),
    )
}

/// What [`crate::snf::smith_normalize`] returns for `a`: the outcome of
/// the reduction, unless a transformation matrix has more entries than
/// a `usize` can count.
pub open spec fn smith_normalize_spec(a: Mat) -> Option<Work> {
    if a.rows * a.rows > usize::MAX || a.cols * a.cols > usize::MAX {
        None
    } else {
        smith_run(a)
    }
}

/// Only one position holds the first least entry of a block.
pub proof fn lemma_min_pivot_unique(b: Mat, k: int, i: int, j: int, i2: int, j2: int)
    requires
        is_min_pivot(b, k, i, j),
        is_min_pivot(b, k, i2, j2),
    ensures
        i == i2 && j == j2,
{
    if i != i2 || j != j2 {
        if scans_before(i, j, i2, j2) {
            assert(b.e[i][j] != 0);
        } else {
            assert(scans_before(i2, j2, i, j));
            assert(b.e[i2][j2] != 0);
        }
    }
}

/// Only one position holds the first entry that the pivot does not divide.
pub proof fn lemma_first_undivided_unique(b: Mat, k: int, i: int, j: int, i2: int, j2: int)
    requires
        is_first_undivided(b, k, i, j),
        is_first_undivided(b, k, i2, j2),
    ensures
        i == i2 && j == j2,
{
    if i != i2 || j != j2 {
        if scans_before(i, j, i2, j2) {
            assert(divides(b.e[k][k], b.e[i][j]));
        } else {
            assert(scans_before(i2, j2, i, j));
            assert(divides(b.e[k][k], b.e[i2][j2]));
        }
    }
}

/// Once a value has left `i128` the clearing of a column stays undone.
pub proof fn lemma_row_null_none(w: Work, k: int, n: int, n2: int)
    requires
        n <= n2,
        after_row_null(w, k, n) is None,
    ensures
        after_row_null(w, k, n2) is None,
    decreases n2 - n,
{
    if n < n2 {
        lemma_row_null_none(w, k, n, n2 - 1);
    }
}

/// Once a value has left `i128` the clearing of a row stays undone.
pub proof fn lemma_col_null_none(w: Work, k: int, n: int, n2: int)
    requires
        n <= n2,
        after_col_null(w, k, n) is None,
    ensures
        after_col_null(w, k, n2) is None,
    decreases n2 - n,
{
    if n < n2 {
        lemma_col_null_none(w, k, n, n2 - 1);
    }
}

} // verus!
