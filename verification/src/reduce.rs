//! Column reduction of a basis: every column in turn takes one division
//! step out of all the others along its topmost nonzero row. The second
//! form carries a torsion order with each column.

use vstd::prelude::*;
use crate::arith::{fits, iabs, lemma_trem, sign, signum, tdiv};
use crate::elementary::add_col_multiple;
use crate::error::HomologyError;
use crate::matrix::{lemma_view_wf, IntMatrix, Mat};

verus! {

/// The first row at or after `i` where column `j` is nonzero, or the
/// number of rows when there is none.
pub open spec fn pivot_row_from(m: Mat, j: int, i: int) -> int
    decreases m.rows - i,
{
    if i >= m.rows {
        m.rows as int
    } else if m.e[i][j] != 0 {
        i
    } else {
        pivot_row_from(m, j, i + 1)
    }
}

/// The topmost row where column `j` is nonzero, or the number of rows
/// for a zero column.
pub open spec fn pivot_row(m: Mat, j: int) -> int {
    pivot_row_from(m, j, 0)
}

/// The greatest common divisor of two natural numbers.
pub open spec fn gcd(a: nat, b: nat) -> nat
    decreases b,
{
    if b == 0 {
        a
    } else {
        gcd(b, a % b)
    }
}

/// One division step: column `j2` loses the truncated quotient of its
/// entry in the pivot row of column `j1` by the pivot, times column `j1`.
/// Nothing happens for `j2 == j1` or a zero column `j1`. `None` when the
/// absolute value of the entry, a product or a sum does not fit `i128`.
pub open spec fn reduce_pair(m: Mat, j1: int, j2: int) -> Option<Mat> {
    let p = pivot_row(m, j1);
    if j2 == j1 || p >= m.rows {
        Some(m)
    } else {
        let c = tdiv(m.e[p][j2], m.e[p][j1]);
        if m.e[p][j2] == i128::MIN || !m.col_update_fits(j2, j1, -c) {
            None
        } else {
            Some(m.add_col_multiple(j2, j1, -c))
        }
    }
}

/// Column `j1` applied to the columns before `n`, in order.
pub open spec fn reduce_with(m: Mat, j1: int, n: int) -> Option<Mat>
    decreases n,
{
    if n <= 0 {
        Some(m)
    } else {
        match reduce_with(m, j1, n - 1) {
            None => None,
            Some(m2) => reduce_pair(m2, j1, n - 1),
        }
    }
}

/// The columns before `n`, in order, each applied to all columns.
pub open spec fn reduce(m: Mat, n: int) -> Option<Mat>
    decreases n,
{
    if n <= 0 {
        Some(m)
    } else {
        match reduce(m, n - 1) {
            None => None,
            Some(m2) => reduce_with(m2, n - 1, m.cols as int),
        }
    }
}

/// The column reduction of `m`, or `None` when it leaves `i128`.
pub open spec fn col_r_spec(m: Mat) -> Option<Mat> {
    reduce(m, m.cols as int)
}

/// A basis whose columns carry torsion orders.
pub struct Basis {
    pub m: Mat,
    pub t: Seq<int>,
}

/// Whether column `j1` leaves column `j2` alone on account of their
/// orders: the order of `j2` is larger, or both are proper and coprime.
pub open spec fn orders_apart(t: Seq<int>, j1: int, j2: int) -> bool {
    t[j2] > t[j1] || (t[j1] > 1 && t[j2] > 1 && gcd(t[j1] as nat, t[j2] as nat) == 1)
}

/// One division step with orders: as [`reduce_pair`], unless the orders
/// keep the columns apart; where it is taken, the order of `j2` becomes
/// the greatest common divisor of the two.
pub open spec fn reduce_pair_tor(s: Basis, j1: int, j2: int) -> Option<Basis> {
    if orders_apart(s.t, j1, j2) {
        Some(s)
    } else {
        match reduce_pair(s.m, j1, j2) {
            None => None,
            Some(m2) => Some(
                Basis {
                    m: m2,
                    t: if j2 == j1 || pivot_row(s.m, j1) >= s.m.rows {
                        s.t
                    } else {
                        s.t.update(j2, gcd(s.t[j1] as nat, s.t[j2] as nat) as int)
                    },
                },
            ),
        }
    }
}

/// Column `j1` applied, with orders, to the columns before `n`.
pub open spec fn reduce_with_tor(s: Basis, j1: int, n: int) -> Option<Basis>
    decreases n,
{
    if n <= 0 {
        Some(s)
    } else {
        match reduce_with_tor(s, j1, n - 1) {
            None => None,
            Some(s2) => reduce_pair_tor(s2, j1, n - 1),
        }
    }
}

/// The columns before `n`, in order, each applied with orders to all columns.
pub open spec fn reduce_tor(s: Basis, n: int) -> Option<Basis>
    decreases n,
{
    if n <= 0 {
        Some(s)
    } else {
        match reduce_tor(s, n - 1) {
            None => None,
            Some(s2) => reduce_with_tor(s2, n - 1, s.m.cols as int),
        }
    }
}

/// The column reduction of a basis with orders, or `None` when it
/// leaves `i128`.
pub open spec fn col_r_same_tor_spec(m: Mat, t: Seq<int>) -> Option<Basis> {
    reduce_tor(Basis { m, t }, m.cols as int)
}

/// Every order is at least 1.
pub open spec fn orders_positive(t: Seq<int>) -> bool {
    forall|j: int| 0 <= j < t.len() ==> (#[trigger] t[j]) >= 1
}

/// Where the first nonzero entry of a column is, and that nothing above
/// it is nonzero.
pub proof fn lemma_pivot_row(m: Mat, j: int, i: int)
    requires
        0 <= i <= m.rows,
    ensures
        i <= pivot_row_from(m, j, i) <= m.rows,
        forall|x: int| i <= x < pivot_row_from(m, j, i) ==> (#[trigger] m.e[x][j]) == 0,
        pivot_row_from(m, j, i) < m.rows ==> m.e[pivot_row_from(m, j, i)][j] != 0,
    decreases m.rows - i,
{
    if i < m.rows && m.e[i][j] == 0 {
        lemma_pivot_row(m, j, i + 1);
    }
}

/// The greatest common divisor of two positive numbers is positive and
/// no larger than the second.
pub proof fn lemma_gcd_positive(a: nat, b: nat)
    requires
        a >= 1 || b >= 1,
    ensures
        gcd(a, b) >= 1,
        b >= 1 ==> gcd(a, b) <= b,
    decreases b,
{
    if b != 0 {
        vstd::arithmetic::div_mod::lemma_mod_bound(a as int, b as int);
        lemma_gcd_positive(b, a % b);
    }
}

/// Once a reduction has left `i128` it stays so, however far it is continued.
pub proof fn lemma_reduce_with_none(m: Mat, j1: int, n: int, n2: int)
    requires
        n <= n2,
        reduce_with(m, j1, n) is None,
    ensures
        reduce_with(m, j1, n2) is None,
    decreases n2 - n,
{
    if n < n2 {
        lemma_reduce_with_none(m, j1, n, n2 - 1);
    }
}

/// Once a reduction has left `i128` it stays so, however far it is continued.
pub proof fn lemma_reduce_none(m: Mat, n: int, n2: int)
    requires
        n <= n2,
        reduce(m, n) is None,
    ensures
        reduce(m, n2) is None,
    decreases n2 - n,
{
    if n < n2 {
        lemma_reduce_none(m, n, n2 - 1);
    }
}

/// Once a reduction has left `i128` it stays so, however far it is continued.
pub proof fn lemma_reduce_with_tor_none(s: Basis, j1: int, n: int, n2: int)
    requires
        n <= n2,
        reduce_with_tor(s, j1, n) is None,
    ensures
        reduce_with_tor(s, j1, n2) is None,
    decreases n2 - n,
{
    if n < n2 {
        lemma_reduce_with_tor_none(s, j1, n, n2 - 1);
    }
}

/// Once a reduction has left `i128` it stays so, however far it is continued.
pub proof fn lemma_reduce_tor_none(s: Basis, n: int, n2: int)
    requires
        n <= n2,
        reduce_tor(s, n) is None,
    ensures
        reduce_tor(s, n2) is None,
    decreases n2 - n,
{
    if n < n2 {
        lemma_reduce_tor_none(s, n, n2 - 1);
    }
}

/// `num::integer::gcd` on `i128`: the greatest common divisor of the
/// absolute values. The call negates its arguments, so `i128::MIN` is
/// kept out.
#[verifier::external_body]
fn integer_gcd(a: i128, b: i128) -> (g: i128)
    requires
        a > i128::MIN,
        b > i128::MIN,
    ensures
        g == gcd(iabs(a as int) as nat, iabs(b as int) as nat),
{
    num::integer::gcd(a, b)
}

/// `r` names the pivot row of column `j`: the topmost nonzero row, or
/// nothing for a zero column.
pub open spec fn is_pivot_of(r: Option<usize>, m: Mat, j: int) -> bool {
    match r {
        Some(p) => p == pivot_row(m, j) && p < m.rows,
        None => pivot_row(m, j) == m.rows,
    }
}

/// The topmost nonzero row of column `j`, if the column is not zero.
pub fn pivot_of(m: &IntMatrix, j: usize) -> (r: Option<usize>)
    requires
        j < m@.cols,
    ensures
        is_pivot_of(r, m@, j as int),
{
    let nr: usize = m.nrows();
    let mut i: usize = 0;
    while i < nr
        invariant
            nr == m@.rows,
            j < m@.cols,
            i <= nr,
            pivot_row(m@, j as int) == pivot_row_from(m@, j as int, i as int),
        decreases nr - i,
    {
        if m.get(i, j) != 0 {
            return Some(i);
        }
        i += 1;
    }
    None
}

/// For each column its topmost nonzero row, `None` for a zero column.
pub fn np_map(m: &IntMatrix) -> (v: Vec<Option<usize>>)
    ensures
        v@.len() == m@.cols,
        forall|j: int| 0 <= j < m@.cols ==> is_pivot_of(#[trigger] v@[j], m@, j),
{
    let nc: usize = m.ncols();
    let mut v: Vec<Option<usize>> = Vec::new();
    let mut j: usize = 0;
    while j < nc
        invariant
            nc == m@.cols,
            j <= nc,
            v@.len() == j,
            forall|y: int| 0 <= y < j ==> is_pivot_of(#[trigger] v@[y], m@, y),
        decreases nc - j,
    {
        v.push(pivot_of(m, j));
        j += 1;
    }
    v
}

/// One division step in place: see [`reduce_pair`].
fn reduce_step(m: &mut IntMatrix, j1: usize, j2: usize) -> (r: Result<(), HomologyError>)
    requires
        j1 < old(m)@.cols,
        j2 < old(m)@.cols,
    ensures
        final(m)@.rows == old(m)@.rows,
        final(m)@.cols == old(m)@.cols,
        match r {
            Ok(()) => reduce_pair(old(m)@, j1 as int, j2 as int) == Some(final(m)@),
            Err(e) => e == HomologyError::Overflow && reduce_pair(old(m)@, j1 as int, j2 as int)
                is None,
        },
{
    if j2 == j1 {
        return Ok(());
    }
    let p: usize = match pivot_of(m, j1) {
        None => {
            return Ok(());
        },
        Some(p) => p,
    };
    proof {
        lemma_pivot_row(m@, j1 as int, 0);
        lemma_view_wf(*m);
    }
    let x: i128 = m.get(p, j2);
    let y: i128 = m.get(p, j1);
    if x == i128::MIN {
        assert(pivot_row(m@, j1 as int) == p);
        assert(m@.e[p as int][j2 as int] == i128::MIN);
        assert(reduce_pair(m@, j1 as int, j2 as int) is None);
        return Err(HomologyError::Overflow);
    }
    let ax: i128 = if x < 0 {
        -x
    } else {
        x
    };
    proof {
        let d = iabs(y as int);
        vstd::arithmetic::div_mod::lemma_div_pos_is_pos(ax as int, d);
        vstd::arithmetic::div_mod::lemma_div_is_ordered_by_denominator(ax as int, 1, d);
        vstd::arithmetic::div_mod::lemma_div_basics(ax as int);
        assert(0 <= ax as int / d <= ax);
        assert(y * -1 == -y);
        assert((ax as int / d) * -1 == -(ax as int / d));
    }
    let q: i128 = match ax.checked_div(y) {
        Some(q) => q,
        None => {
            return Err(HomologyError::Overflow);
        },
    };
    proof {
        let (xi, yi) = (x as int, y as int);
        assert(iabs(xi) == ax);
        if yi > 0 {
            assert(q == ax as int / yi);
            assert(signum(yi) * (iabs(xi) / iabs(yi)) == q) by (nonlinear_arith)
                requires
                    signum(yi) == 1,
                    iabs(yi) == yi,
                    q == iabs(xi) / yi,
            ;
        } else {
            if ax == 0 {
                assert(q == 0);
                assert(0int / iabs(yi) == 0) by (nonlinear_arith)
                    requires
                        iabs(yi) > 0,
                ;
            } else {
                assert(yi * -1 == iabs(yi));
                assert(q == (ax as int / iabs(yi)) * -1);
            }
            assert(signum(yi) * (iabs(xi) / iabs(yi)) == q) by (nonlinear_arith)
                requires
                    signum(yi) == -1,
                    q == (iabs(xi) / iabs(yi)) * -1,
            ;
        }
        vstd::arithmetic::div_mod::lemma_div_pos_is_pos(iabs(xi), iabs(yi));
        vstd::arithmetic::div_mod::lemma_div_is_ordered_by_denominator(iabs(xi), 1, iabs(yi));
        vstd::arithmetic::div_mod::lemma_div_basics(iabs(xi));
        assert(iabs(q as int) <= iabs(xi)) by (nonlinear_arith)
            requires
                q == signum(yi) * (iabs(xi) / iabs(yi)),
                0 <= iabs(xi) / iabs(yi) <= iabs(xi),
                signum(yi) == 1 || signum(yi) == -1,
        ;
        assert(signum(xi) * (signum(yi) * (iabs(xi) / iabs(yi))) == tdiv(xi, yi))
            by (nonlinear_arith)
            requires
                tdiv(xi, yi) == signum(xi) * signum(yi) * (iabs(xi) / iabs(yi)),
        ;
    }
    let s: i128 = sign(x);
    proof {
        assert(fits(s * q)) by (nonlinear_arith)
            requires
                s == 1 || s == 0 || s == -1,
                i128::MIN < q <= i128::MAX,
        ;
        assert(s * q == tdiv(x as int, y as int));
        assert(iabs(s * q) <= i128::MAX) by (nonlinear_arith)
            requires
                s == 1 || s == 0 || s == -1,
                i128::MIN < q <= i128::MAX,
        ;
    }
    let c: i128 = s * q;
    let back: i128 = -c;
    add_col_multiple(m, j2, j1, back)
}

/// Reduces the columns of a basis against each other: for each column
/// in turn, every other column loses the truncated quotient of its
/// entry in that column's topmost nonzero row by the pivot there, times
/// the column. The result is [`col_r_spec`] of the input, and the call
/// fails exactly when that leaves `i128`.
pub fn col_r(mm: IntMatrix) -> (r: Result<IntMatrix, HomologyError>)
    ensures
        match r {
            Ok(n) => col_r_spec(mm@) == Some(n@) && n@.rows == mm@.rows && n@.cols == mm@.cols,
            Err(e) => e == HomologyError::Overflow && col_r_spec(mm@) is None,
        },
{
    let ghost m0 = mm@;
    let nc: usize = mm.ncols();
    let mut m = mm;
    let mut j1: usize = 0;
    while j1 < nc
        invariant
            m0 == mm@,
            nc == m0.cols,
            j1 <= nc,
            m@.cols == m0.cols,
            m@.rows == m0.rows,
            reduce(m0, j1 as int) == Some(m@),
        decreases nc - j1,
    {
        let ghost m1 = m@;
        let mut j2: usize = 0;
        while j2 < nc
            invariant
                m0 == mm@,
                nc == m0.cols,
                j1 < nc,
                j2 <= nc,
                m@.cols == m0.cols,
                m@.rows == m0.rows,
                reduce(m0, j1 as int) == Some(m1),
                reduce_with(m1, j1 as int, j2 as int) == Some(m@),
            decreases nc - j2,
        {
            let ghost m2 = m@;
            match reduce_step(&mut m, j1, j2) {
                Ok(()) => {},
                Err(e) => {
                    proof {
                        assert(reduce_pair(m2, j1 as int, j2 as int) is None);
                        assert(reduce_with(m1, j1 as int, j2 + 1) is None);
                        lemma_reduce_with_none(m1, j1 as int, j2 + 1, nc as int);
                        assert(reduce(m0, j1 + 1) is None);
                        lemma_reduce_none(m0, j1 + 1, nc as int);
                    }
                    return Err(e);
                },
            }
            j2 += 1;
        }
        j1 += 1;
    }
    Ok(m)
}

/// The values of a sequence of `i128`s as integers.
pub open spec fn ints(s: Seq<i128>) -> Seq<int> {
    s.map_values(|x: i128| x as int)
}

/// One division step with orders, in place: see [`reduce_pair_tor`].
fn reduce_step_tor(m: &mut IntMatrix, t: &mut Vec<i128>, j1: usize, j2: usize) -> (r: Result<
    (),
    HomologyError,
>)
    requires
        j1 < old(m)@.cols,
        j2 < old(m)@.cols,
        old(t)@.len() == old(m)@.cols,
        orders_positive(ints(old(t)@)),
    ensures
        final(m)@.rows == old(m)@.rows,
        final(m)@.cols == old(m)@.cols,
        final(t)@.len() == old(t)@.len(),
        match r {
            Ok(()) => reduce_pair_tor(
                Basis { m: old(m)@, t: ints(old(t)@) },
                j1 as int,
                j2 as int,
            ) == Some(Basis { m: final(m)@, t: ints(final(t)@) }) && orders_positive(
                ints(final(t)@),
            ),
            Err(e) => e == HomologyError::Overflow && reduce_pair_tor(
                Basis { m: old(m)@, t: ints(old(t)@) },
                j1 as int,
                j2 as int,
            ) is None,
        },
{
    let a: i128 = t[j1];
    let b: i128 = t[j2];
    proof {
        assert(ints(t@)[j1 as int] == a);
        assert(ints(t@)[j2 as int] == b);
        lemma_gcd_positive(a as nat, b as nat);
    }
    let g: i128 = integer_gcd(a, b);
    if b > a || (a > 1 && b > 1 && g == 1) {
        return Ok(());
    }
    if j2 == j1 {
        return Ok(());
    }
    if pivot_of(m, j1).is_none() {
        return Ok(());
    }
    let ghost t0 = ints(t@);
    reduce_step(m, j1, j2)?;
    t.set(j2, g);
    proof {
        assert(ints(t@) =~= t0.update(j2 as int, g as int));
    }
    Ok(())
}

/// Reduces the columns of a basis with torsion orders against each
/// other. A column acts on another only where the orders allow it: not
/// on one of larger order, and not where both orders are proper and
/// coprime. Where it acts, the other column takes one division step and
/// its order becomes the greatest common divisor of the two. The result
/// is [`col_r_same_tor_spec`] of the input, and the call fails exactly
/// when that leaves `i128`.
pub fn col_r_same_tor(mm: IntMatrix, tt: Vec<i128>) -> (r: Result<
    (IntMatrix, Vec<i128>),
    HomologyError,
>)
    requires
        tt@.len() == mm@.cols,
        orders_positive(ints(tt@)),
    ensures
        match r {
            Ok((n, t)) => col_r_same_tor_spec(mm@, ints(tt@)) == Some(
                Basis { m: n@, t: ints(t@) },
            ) && orders_positive(ints(t@)) && t@.len() == tt@.len() && n@.rows == mm@.rows
                && n@.cols == mm@.cols,
            Err(e) => e == HomologyError::Overflow && col_r_same_tor_spec(mm@, ints(tt@)) is None,
        },
{
    let ghost s0 = Basis { m: mm@, t: ints(tt@) };
    let nc: usize = mm.ncols();
    let mut m = mm;
    let mut t = tt;
    let mut j1: usize = 0;
    while j1 < nc
        invariant
            s0 == (Basis { m: mm@, t: ints(tt@) }),
            nc == s0.m.cols,
            j1 <= nc,
            m@.cols == s0.m.cols,
            m@.rows == s0.m.rows,
            t@.len() == nc,
            t@.len() == tt@.len(),
            orders_positive(ints(t@)),
            reduce_tor(s0, j1 as int) == Some(Basis { m: m@, t: ints(t@) }),
        decreases nc - j1,
    {
        let ghost s1 = Basis { m: m@, t: ints(t@) };
        let mut j2: usize = 0;
        while j2 < nc
            invariant
                s0 == (Basis { m: mm@, t: ints(tt@) }),
                nc == s0.m.cols,
                j1 < nc,
                j2 <= nc,
                m@.cols == s0.m.cols,
                m@.rows == s0.m.rows,
                t@.len() == nc,
                t@.len() == tt@.len(),
                orders_positive(ints(t@)),
                reduce_tor(s0, j1 as int) == Some(s1),
                reduce_with_tor(s1, j1 as int, j2 as int) == Some(Basis { m: m@, t: ints(t@) }),
            decreases nc - j2,
        {
            let ghost s2 = Basis { m: m@, t: ints(t@) };
            match reduce_step_tor(&mut m, &mut t, j1, j2) {
                Ok(()) => {},
                Err(e) => {
                    proof {
                        assert(reduce_pair_tor(s2, j1 as int, j2 as int) is None);
                        assert(reduce_with_tor(s1, j1 as int, j2 + 1) is None);
                        lemma_reduce_with_tor_none(s1, j1 as int, j2 + 1, nc as int);
                        assert(reduce_tor(s0, j1 + 1) is None);
                        lemma_reduce_tor_none(s0, j1 + 1, nc as int);
                    }
                    return Err(e);
                },
            }
            j2 += 1;
        }
        j1 += 1;
    }
    Ok((m, t))
}

/// A basis is reduced when, along the topmost nonzero row of each
/// column, every other column holds an entry of smaller absolute value
/// than the pivot.
pub open spec fn is_reduced(m: Mat) -> bool {
    forall|j1: int, j2: int|
        0 <= j1 < m.cols && 0 <= j2 < m.cols && j1 != j2 && pivot_row(m, j1) < m.rows ==> iabs(
            #[trigger] m.e[pivot_row(m, j1)][j2],
        ) < iabs(m.e[pivot_row(m, j1)][j1])
}

/// A basis with orders is reduced when, for every pair of columns that
/// the orders do not keep apart, the entry of the second along the
/// pivot row of the first is smaller in absolute value than the pivot,
/// and the order of the second divides the order of the first.
pub open spec fn is_reduced_with_orders(m: Mat, t: Seq<int>) -> bool {
    forall|j1: int, j2: int|
        0 <= j1 < m.cols && 0 <= j2 < m.cols && j1 != j2 && pivot_row(m, j1) < m.rows
            && !orders_apart(t, j1, j2) ==> iabs(#[trigger] m.e[pivot_row(m, j1)][j2]) < iabs(
            m.e[pivot_row(m, j1)][j1],
        ) && t[j1] % t[j2] == 0
}

/// A division step whose quotient is zero changes nothing.
proof fn lemma_small_entry_step(m: Mat, j1: int, j2: int)
    requires
        m.wf(),
        m.fits(),
        0 <= j1 < m.cols,
        0 <= j2 < m.cols,
        j1 != j2 && pivot_row(m, j1) < m.rows ==> iabs(m.e[pivot_row(m, j1)][j2]) < iabs(
            m.e[pivot_row(m, j1)][j1],
        ),
    ensures
        reduce_pair(m, j1, j2) == Some(m),
{
    let p = pivot_row(m, j1);
    lemma_pivot_row(m, j1, 0);
    if j2 != j1 && p < m.rows {
        let x = m.e[p][j2];
        let y = m.e[p][j1];
        assert(fits(x) && fits(y));
        lemma_trem(x, y);
        assert(tdiv(x, y) == 0);
        assert forall|a: int| 0 <= a < m.rows implies fits(0 * #[trigger] m.e[a][j1]) && fits(
            m.e[a][j2] + 0 * m.e[a][j1],
        ) by {
            assert(0 * m.e[a][j1] == 0);
            assert(fits(m.e[a][j2]));
        }
        let n = m.add_col_multiple(j2, j1, 0);
        assert forall|a: int, b: int| n.has(a, b) implies #[trigger] n.e[a][b] == m.e[a][b] by {
            assert(0 * m.e[a][j1] == 0);
        }
        assert(n =~~= m);
    }
}

/// One column of a reduced basis applied to the others changes nothing.
proof fn lemma_reduced_with(m: Mat, j1: int, n: int)
    requires
        m.wf(),
        m.fits(),
        is_reduced(m),
        0 <= j1 < m.cols,
        0 <= n <= m.cols,
    ensures
        reduce_with(m, j1, n) == Some(m),
    decreases n,
{
    if n > 0 {
        lemma_reduced_with(m, j1, n - 1);
        lemma_small_entry_step(m, j1, n - 1);
    }
}

/// The first columns of a reduced basis applied to all change nothing.
proof fn lemma_reduced_upto(m: Mat, n: int)
    requires
        m.wf(),
        m.fits(),
        is_reduced(m),
        0 <= n <= m.cols,
    ensures
        reduce(m, n) == Some(m),
    decreases n,
{
    if n > 0 {
        lemma_reduced_upto(m, n - 1);
        lemma_reduced_with(m, n - 1, m.cols as int);
    }
}

/// Column reduction leaves a reduced basis as it is: a basis that is
/// already reduced is a fixed point, so reducing it once more, or any
/// number of times, returns the same basis.
pub proof fn lemma_col_r_fixed_point(m: Mat)
    requires
        m.wf(),
        m.fits(),
        is_reduced(m),
    ensures
        col_r_spec(m) == Some(m),
        col_r_spec(col_r_spec(m).unwrap()) == col_r_spec(m),
{
    lemma_reduced_upto(m, m.cols as int);
}

/// One column of a reduced basis with orders applied to the others
/// changes nothing.
proof fn lemma_reduced_with_tor(s: Basis, j1: int, n: int)
    requires
        s.m.wf(),
        s.m.fits(),
        s.t.len() == s.m.cols,
        orders_positive(s.t),
        is_reduced_with_orders(s.m, s.t),
        0 <= j1 < s.m.cols,
        0 <= n <= s.m.cols,
    ensures
        reduce_with_tor(s, j1, n) == Some(s),
    decreases n,
{
    if n > 0 {
        lemma_reduced_with_tor(s, j1, n - 1);
        let j2 = n - 1;
        if !orders_apart(s.t, j1, j2) {
            lemma_small_entry_step(s.m, j1, j2);
            if j2 != j1 && pivot_row(s.m, j1) < s.m.rows {
                let a = s.t[j1] as nat;
                let b = s.t[j2] as nat;
                assert(s.t[j2] >= 1);
                assert(s.t[j1] >= 1);
                assert(a % b == 0);
                assert(gcd(a, b) == gcd(b, 0));
                assert(gcd(b, 0) == b);
                assert(s.t.update(j2, b as int) =~= s.t);
            }
        }
    }
}

/// The first columns of a reduced basis with orders applied to all
/// change nothing.
proof fn lemma_reduced_upto_tor(s: Basis, n: int)
    requires
        s.m.wf(),
        s.m.fits(),
        s.t.len() == s.m.cols,
        orders_positive(s.t),
        is_reduced_with_orders(s.m, s.t),
        0 <= n <= s.m.cols,
    ensures
        reduce_tor(s, n) == Some(s),
    decreases n,
{
    if n > 0 {
        lemma_reduced_upto_tor(s, n - 1);
        lemma_reduced_with_tor(s, n - 1, s.m.cols as int);
    }
}

/// Column reduction with orders leaves a reduced basis and its orders
/// as they are: such a basis is a fixed point, so reducing it once
/// more, or any number of times, returns the same basis and orders.
pub proof fn lemma_col_r_same_tor_fixed_point(m: Mat, t: Seq<int>)
    requires
        m.wf(),
        m.fits(),
        t.len() == m.cols,
        orders_positive(t),
        is_reduced_with_orders(m, t),
    ensures
        col_r_same_tor_spec(m, t) == Some(Basis { m, t }),
{
    lemma_reduced_upto_tor(Basis { m, t }, m.cols as int);
}

} // verus!
