//! Matrix products in checked `i128` arithmetic.

use vstd::prelude::*;
use crate::arith::{fits, mul_add};
use crate::error::HomologyError;
use crate::linear::dot;
use crate::matrix::{IntMatrix, Mat};

verus! {

/// The sum of `u[l] * v[l]` over `0 <= l < n`, taken term by term in
/// `i128`: `None` as soon as a product or a partial sum does not fit.
pub open spec fn checked_dot(u: Seq<int>, v: Seq<int>, n: nat) -> Option<int>
    decreases n,
{
    if n == 0 {
        Some(0)
    } else {
        match checked_dot(u, v, (n - 1) as nat) {
            None => None,
            Some(s) => if fits(u[n - 1] * v[n - 1]) && fits(s + u[n - 1] * v[n - 1]) {
                Some(s + u[n - 1] * v[n - 1])
            } else {
                None
            },
        }
    }
}

/// Every entry of the product `a * b` can be summed up in `i128`.
pub open spec fn product_fits(a: Mat, b: Mat) -> bool {
    forall|i: int, j: int|
        0 <= i < a.rows && 0 <= j < b.cols ==> (#[trigger] checked_dot(
            a.e[i],
            b.col(j),
            a.cols,
        )) is Some
}

/// A sum that stays within `i128` is the dot product.
pub proof fn lemma_checked_dot(u: Seq<int>, v: Seq<int>, n: nat)
    ensures
        checked_dot(u, v, n) matches Some(s) ==> s == dot(u, v, n) && fits(s),
    decreases n,
{
    if n > 0 {
        lemma_checked_dot(u, v, (n - 1) as nat);
    }
}

/// Once a sum has left `i128` it stays out, however many terms follow.
pub proof fn lemma_checked_dot_none(u: Seq<int>, v: Seq<int>, n: nat, n2: nat)
    requires
        n <= n2,
        checked_dot(u, v, n) is None,
    ensures
        checked_dot(u, v, n2) is None,
    decreases n2 - n,
{
    if n < n2 {
        lemma_checked_dot_none(u, v, n, (n2 - 1) as nat);
    }
}

/// Row `i` of `a` times column `j` of `b`.
fn entry_of_product(a: &IntMatrix, b: &IntMatrix, i: usize, j: usize) -> (r: Option<i128>)
    requires
        a@.cols == b@.rows,
        i < a@.rows,
        j < b@.cols,
    ensures
        match r {
            Some(s) => checked_dot(a@.e[i as int], b@.col(j as int), a@.cols) == Some(s as int),
            None => checked_dot(a@.e[i as int], b@.col(j as int), a@.cols) is None,
        },
{
    let n: usize = a.ncols();
    let ghost u = a@.e[i as int];
    let ghost v = b@.col(j as int);
    let mut s: i128 = 0;
    let mut l: usize = 0;
    while l < n
        invariant
            n == a@.cols,
            a@.cols == b@.rows,
            i < a@.rows,
            j < b@.cols,
            l <= n,
            u == a@.e[i as int],
            v == b@.col(j as int),
            checked_dot(u, v, l as nat) == Some(s as int),
        decreases n - l,
    {
        let x: i128 = a.get(i, l);
        let y: i128 = b.get(l, j);
        match mul_add(s, x, y) {
            Some(t) => {
                s = t;
            },
            None => {
                proof {
                    assert(checked_dot(u, v, (l + 1) as nat) is None);
                    lemma_checked_dot_none(u, v, (l + 1) as nat, n as nat);
                }
                return None;
            },
        }
        l += 1;
    }
    Some(s)
}

/// The product `a * b`, or `Overflow` exactly when the product has more
/// entries than a `usize` can count or summing up one of its entries
/// term by term leaves `i128`.
pub fn checked_product(a: &IntMatrix, b: &IntMatrix) -> (r: Result<IntMatrix, HomologyError>)
    requires
        a@.cols == b@.rows,
    ensures
        match r {
            Ok(m) => product_fits(a@, b@) && m@ == a@.mul(b@),
            Err(e) => e == HomologyError::Overflow && (a@.rows * b@.cols > usize::MAX
                || !product_fits(a@, b@)),
        },
{
    let nr: usize = a.nrows();
    let nc: usize = b.ncols();
    if nr.checked_mul(nc).is_none() {
        return Err(HomologyError::Overflow);
    }
    let mut m = IntMatrix::zeros(nr, nc);
    let mut i: usize = 0;
    while i < nr
        invariant
            nr == a@.rows,
            nc == b@.cols,
            a@.cols == b@.rows,
            i <= nr,
            m@.rows == nr,
            m@.cols == nc,
            forall|x: int, y: int|
                0 <= x < i && 0 <= y < nc ==> (#[trigger] checked_dot(
                    a@.e[x],
                    b@.col(y),
                    a@.cols,
                )) is Some,
            forall|x: int, y: int|
                m@.has(x, y) && x < i ==> #[trigger] m@.e[x][y] == dot(a@.e[x], b@.col(y), a@.cols),
        decreases nr - i,
    {
        let mut j: usize = 0;
        while j < nc
            invariant
                nr == a@.rows,
                nc == b@.cols,
                a@.cols == b@.rows,
                i < nr,
                j <= nc,
                m@.rows == nr,
                m@.cols == nc,
                forall|x: int, y: int|
                    0 <= x < nr && 0 <= y < nc && (x < i || (x == i && y < j)) ==> (
                    #[trigger] checked_dot(a@.e[x], b@.col(y), a@.cols)) is Some,
                forall|x: int, y: int|
                    m@.has(x, y) && (x < i || (x == i && y < j)) ==> #[trigger] m@.e[x][y] == dot(
                        a@.e[x],
                        b@.col(y),
                        a@.cols,
                    ),
            decreases nc - j,
        {
            match entry_of_product(a, b, i, j) {
                Some(s) => {
                    proof {
                        lemma_checked_dot(a@.e[i as int], b@.col(j as int), a@.cols);
                    }
                    m.set(i, j, s);
                },
                None => {
                    return Err(HomologyError::Overflow);
                },
            }
            j += 1;
        }
        i += 1;
    }
    assert(m@ =~~= a@.mul(b@));
    Ok(m)
}

/// Whether `m` is an identity matrix.
pub fn is_identity(m: &IntMatrix) -> (r: bool)
    ensures
        r == (m@ == Mat::identity(m@.rows)),
{
    let nr: usize = m.nrows();
    let nc: usize = m.ncols();
    if nr != nc {
        return false;
    }
    let mut i: usize = 0;
    while i < nr
        invariant
            nr == m@.rows,
            nc == m@.cols,
            nr == nc,
            i <= nr,
            forall|x: int, y: int|
                m@.has(x, y) && x < i ==> #[trigger] m@.e[x][y] == Mat::identity(m@.rows).e[x][y],
        decreases nr - i,
    {
        let mut j: usize = 0;
        while j < nc
            invariant
                nr == m@.rows,
                nc == m@.cols,
                nr == nc,
                i < nr,
                j <= nc,
                forall|x: int, y: int|
                    m@.has(x, y) && (x < i || (x == i && y < j)) ==> #[trigger] m@.e[x][y]
                        == Mat::identity(m@.rows).e[x][y],
            decreases nc - j,
        {
            let want: i128 = if i == j {
                1
            } else {
                0
            };
            if m.get(i, j) != want {
                assert(m@.e[i as int][j as int] != Mat::identity(m@.rows).e[i as int][j as int]);
                return false;
            }
            j += 1;
        }
        i += 1;
    }
    assert(m@ =~~= Mat::identity(m@.rows));
    true
}

} // verus!
