//! Elementary row and column operations on stored matrices, in place and
//! with every sum and product checked against the range of `i128`.

use vstd::prelude::*;
use crate::arith::{fits, mul_add};
use crate::error::HomologyError;
use crate::linear::swapped;
use crate::matrix::{IntMatrix, Mat};

verus! {

impl Mat {
    /// Every entry is the value of some `i128`.
    pub open spec fn fits(self) -> bool {
        forall|i: int, j: int| self.has(i, j) ==> fits(#[trigger] self.e[i][j])
    }

    /// Adding `c` times row `k` to row `i` stays within `i128`, products included.
    pub open spec fn row_update_fits(self, i: int, k: int, c: int) -> bool {
        forall|b: int|
            0 <= b < self.cols ==> fits(c * #[trigger] self.e[k][b]) && fits(
                self.e[i][b] + c * self.e[k][b],
            )
    }

    /// Adding `c` times column `k` to column `j` stays within `i128`, products included.
    pub open spec fn col_update_fits(self, j: int, k: int, c: int) -> bool {
        forall|a: int|
            0 <= a < self.rows ==> fits(c * #[trigger] self.e[a][k]) && fits(
                self.e[a][j] + c * self.e[a][k],
            )
    }

    /// Negating column `k` stays within `i128`.
    pub open spec fn col_negation_fits(self, k: int) -> bool {
        forall|a: int| 0 <= a < self.rows ==> fits(-(#[trigger] self.e[a][k]))
    }
}

/// Exchanges rows `i` and `k`.
pub fn swap_rows(m: &mut IntMatrix, i: usize, k: usize)
    requires
        i < old(m)@.rows,
        k < old(m)@.rows,
    ensures
        final(m)@ == old(m)@.swap_rows(i as int, k as int),
{
    let ghost m0 = m@;
    let n: usize = m.ncols();
    let mut b: usize = 0;
    while b < n
        invariant
            m0 == old(m)@,
            b <= n,
            n == m0.cols,
            m@.rows == m0.rows,
            m@.cols == m0.cols,
            i < m0.rows,
            k < m0.rows,
            forall|x: int, y: int|
                m@.has(x, y) ==> #[trigger] m@.e[x][y] == (if y < b {
                    m0.e[swapped(x, i as int, k as int)][y]
                } else {
                    m0.e[x][y]
                }),
        decreases n - b,
    {
        let t: i128 = m.get(i, b);
        let u: i128 = m.get(k, b);
        m.set(i, b, u);
        m.set(k, b, t);
        b += 1;
    }
    assert(m@ =~~= m0.swap_rows(i as int, k as int));
}

/// Exchanges columns `j` and `k`.
pub fn swap_cols(m: &mut IntMatrix, j: usize, k: usize)
    requires
        j < old(m)@.cols,
        k < old(m)@.cols,
    ensures
        final(m)@ == old(m)@.swap_cols(j as int, k as int),
{
    let ghost m0 = m@;
    let n: usize = m.nrows();
    let mut a: usize = 0;
    while a < n
        invariant
            m0 == old(m)@,
            a <= n,
            n == m0.rows,
            m@.rows == m0.rows,
            m@.cols == m0.cols,
            j < m0.cols,
            k < m0.cols,
            forall|x: int, y: int|
                m@.has(x, y) ==> #[trigger] m@.e[x][y] == (if x < a {
                    m0.e[x][swapped(y, j as int, k as int)]
                } else {
                    m0.e[x][y]
                }),
        decreases n - a,
    {
        let t: i128 = m.get(a, j);
        let u: i128 = m.get(a, k);
        m.set(a, j, u);
        m.set(a, k, t);
        a += 1;
    }
    assert(m@ =~~= m0.swap_cols(j as int, k as int));
}

/// Adds `c` times row `k` to row `i`. Fails, leaving the shape alone, as
/// soon as a product or a sum leaves `i128`.
pub fn add_row_multiple(m: &mut IntMatrix, i: usize, k: usize, c: i128) -> (r: Result<
    (),
    HomologyError,
>)
    requires
        i < old(m)@.rows,
        k < old(m)@.rows,
    ensures
        final(m)@.rows == old(m)@.rows,
        final(m)@.cols == old(m)@.cols,
        match r {
            Ok(()) => old(m)@.row_update_fits(i as int, k as int, c as int) && final(m)@ == old(
                m,
            )@.add_row_multiple(i as int, k as int, c as int),
            Err(e) => e == HomologyError::Overflow && !old(m)@.row_update_fits(
                i as int,
                k as int,
                c as int,
            ),
        },
{
    let ghost m0 = m@;
    let n: usize = m.ncols();
    let mut b: usize = 0;
    while b < n
        invariant
            m0 == old(m)@,
            b <= n,
            n == m0.cols,
            m@.rows == m0.rows,
            m@.cols == m0.cols,
            i < m0.rows,
            k < m0.rows,
            forall|y: int|
                0 <= y < b ==> fits(c * #[trigger] m0.e[k as int][y]) && fits(
                    m0.e[i as int][y] + c * m0.e[k as int][y],
                ),
            forall|x: int, y: int|
                m@.has(x, y) ==> #[trigger] m@.e[x][y] == (if x == i && y < b {
                    m0.e[x][y] + c * m0.e[k as int][y]
                } else {
                    m0.e[x][y]
                }),
        decreases n - b,
    {
        let t: i128 = m.get(i, b);
        let u: i128 = m.get(k, b);
        match mul_add(t, c, u) {
            None => {
                assert(!(fits(c * m0.e[k as int][b as int]) && fits(
                    m0.e[i as int][b as int] + c * m0.e[k as int][b as int],
                )));
                return Err(HomologyError::Overflow);
            },
            Some(v) => {
                m.set(i, b, v);
            },
        }
        b += 1;
    }
    assert(m@ =~~= m0.add_row_multiple(i as int, k as int, c as int));
    Ok(())
}

/// Adds `c` times column `k` to column `j`. Fails, leaving the shape alone,
/// as soon as a product or a sum leaves `i128`.
pub fn add_col_multiple(m: &mut IntMatrix, j: usize, k: usize, c: i128) -> (r: Result<
    (),
    HomologyError,
>)
    requires
        j < old(m)@.cols,
        k < old(m)@.cols,
    ensures
        final(m)@.rows == old(m)@.rows,
        final(m)@.cols == old(m)@.cols,
        match r {
            Ok(()) => old(m)@.col_update_fits(j as int, k as int, c as int) && final(m)@ == old(
                m,
            )@.add_col_multiple(j as int, k as int, c as int),
            Err(e) => e == HomologyError::Overflow && !old(m)@.col_update_fits(
                j as int,
                k as int,
                c as int,
            ),
        },
{
    let ghost m0 = m@;
    let n: usize = m.nrows();
    let mut a: usize = 0;
    while a < n
        invariant
            m0 == old(m)@,
            a <= n,
            n == m0.rows,
            m@.rows == m0.rows,
            m@.cols == m0.cols,
            j < m0.cols,
            k < m0.cols,
            forall|x: int|
                0 <= x < a ==> fits(c * #[trigger] m0.e[x][k as int]) && fits(
                    m0.e[x][j as int] + c * m0.e[x][k as int],
                ),
            forall|x: int, y: int|
                m@.has(x, y) ==> #[trigger] m@.e[x][y] == (if y == j && x < a {
                    m0.e[x][y] + c * m0.e[x][k as int]
                } else {
                    m0.e[x][y]
                }),
        decreases n - a,
    {
        let t: i128 = m.get(a, j);
        let u: i128 = m.get(a, k);
        match mul_add(t, c, u) {
            None => {
                assert(!(fits(c * m0.e[a as int][k as int]) && fits(
                    m0.e[a as int][j as int] + c * m0.e[a as int][k as int],
                )));
                return Err(HomologyError::Overflow);
            },
            Some(v) => {
                m.set(a, j, v);
            },
        }
        a += 1;
    }
    assert(m@ =~~= m0.add_col_multiple(j as int, k as int, c as int));
    Ok(())
}

/// Negates column `k`. Fails, leaving the shape alone, when the column
/// holds `i128::MIN`.
pub fn negate_col(m: &mut IntMatrix, k: usize) -> (r: Result<(), HomologyError>)
    requires
        k < old(m)@.cols,
    ensures
        final(m)@.rows == old(m)@.rows,
        final(m)@.cols == old(m)@.cols,
        match r {
            Ok(()) => old(m)@.col_negation_fits(k as int) && final(m)@ == old(m)@.negate_col(
                k as int,
            ),
            Err(e) => e == HomologyError::Overflow && !old(m)@.col_negation_fits(k as int),
        },
{
    let ghost m0 = m@;
    let n: usize = m.nrows();
    let mut a: usize = 0;
    while a < n
        invariant
            m0 == old(m)@,
            a <= n,
            n == m0.rows,
            m@.rows == m0.rows,
            m@.cols == m0.cols,
            k < m0.cols,
            forall|x: int| 0 <= x < a ==> fits(-(#[trigger] m0.e[x][k as int])),
            forall|x: int, y: int|
                m@.has(x, y) ==> #[trigger] m@.e[x][y] == (if y == k && x < a {
                    -m0.e[x][y]
                } else {
                    m0.e[x][y]
                }),
        decreases n - a,
    {
        let t: i128 = m.get(a, k);
        match 0i128.checked_sub(t) {
            None => {
                assert(!fits(-m0.e[a as int][k as int]));
                return Err(HomologyError::Overflow);
            },
            Some(v) => {
                m.set(a, k, v);
            },
        }
        a += 1;
    }
    assert(m@ =~~= m0.negate_col(k as int));
    Ok(())
}

} // verus!
