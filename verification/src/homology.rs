//! Homology groups from two consecutive boundary operators: the cycle
//! basis out of the Smith normal form of the first, the boundary basis
//! and its torsion orders out of that of the second, and the matching of
//! the two by pivot rows.

use vstd::prelude::*;
pub use crate::boundary::SimplicalComplex;
use crate::boundary::{boundary_matrix, calc_boundary_operators, simplices, well_formed};
use crate::course::smith_normalize_spec;
use crate::error::HomologyError;
use crate::kernel::{
    columns, combines_to, in_kernel, independent, is_kernel_basis, is_vector,
    lemma_reduce_kernel, lemma_smith_kernel_basis,
};
use crate::linear::{
    dot, lemma_dot_congruent, lemma_dot_unit_right, lemma_identity_mul, lemma_mul_identity,
};
use crate::matrix::{lemma_view_wf, IntMatrix, Mat};
use crate::reduce::{
    col_r, col_r_same_tor, col_r_same_tor_spec, col_r_spec, ints, is_pivot_of, lemma_pivot_row,
    np_map, orders_positive, pivot_row,
};
use crate::smith_form::{diag_len, diag_rank, smith_form};
use crate::snf::{is_zeros, rank, smith_normalize, Decomposed};

verus! {

/// The first `n` entries of the diagonal of `d`.
pub open spec fn diag_prefix(d: Mat, n: int) -> Seq<int> {
    Seq::new(n as nat, |i: int| d.e[i][i])
}

/// What one boundary operator yields: a reduced basis `b` of its image
/// with the torsion order `t` of each column, and a reduced basis `z`
/// of its kernel.
pub struct Cohomology {
    pub b: Mat,
    pub t: Seq<int>,
    pub z: Mat,
}

/// The bases read off a Smith normal form `p * a * q == d` of rank `r`:
/// the kernel basis is the reduction of the columns of `q` from `r` on;
/// the image basis is the reduction, with orders, of the first `r`
/// columns of the inverse of `p`, the orders being the first `r`
/// diagonal entries of `d`. `None` when a reduction leaves `i128`.
pub open spec fn cohomology_spec(q: Mat, p_inv: Mat, d: Mat) -> Option<Cohomology> {
    let r = diag_rank(d);
    match col_r_spec(columns(q, r, q.cols as int)) {
        None => None,
        Some(z) => match col_r_same_tor_spec(columns(p_inv, 0, r), diag_prefix(d, r)) {
            None => None,
            Some(bt) => Some(Cohomology { b: bt.m, t: bt.t, z }),
        },
    }
}

/// A copy of columns `from..to` of `m`.
fn sub_columns(m: &IntMatrix, from: usize, to: usize) -> (r: IntMatrix)
    requires
        from <= to <= m@.cols,
    ensures
        r@ == columns(m@, from as int, to as int),
{
    let nr: usize = m.nrows();
    let w: usize = to - from;
    proof {
        assert(nr * w <= nr * m@.cols) by (nonlinear_arith)
            requires
                w <= m@.cols,
                nr >= 0,
        ;
    }
    let mut r = IntMatrix::zeros(nr, w);
    let mut j: usize = 0;
    while j < w
        invariant
            nr == m@.rows,
            w == to - from,
            from <= to <= m@.cols,
            j <= w,
            r@.rows == nr,
            r@.cols == w,
            forall|x: int, y: int|
                r@.has(x, y) && y < j ==> #[trigger] r@.e[x][y] == m@.e[x][y + from],
        decreases w - j,
    {
        let mut i: usize = 0;
        while i < nr
            invariant
                nr == m@.rows,
                w == to - from,
                from <= to <= m@.cols,
                j < w,
                i <= nr,
                r@.rows == nr,
                r@.cols == w,
                forall|x: int, y: int|
                    r@.has(x, y) && (y < j || (y == j && x < i)) ==> #[trigger] r@.e[x][y]
                        == m@.e[x][y + from],
            decreases nr - i,
        {
            let v: i128 = m.get(i, j + from);
            r.set(i, j, v);
            i += 1;
        }
        j += 1;
    }
    assert(r@ =~~= columns(m@, from as int, to as int));
    r
}

/// The first `n` entries of the diagonal of `d`.
fn diagonal(d: &IntMatrix, n: usize) -> (t: Vec<i128>)
    requires
        n <= diag_len(d@),
    ensures
        t@.len() == n,
        ints(t@) == diag_prefix(d@, n as int),
{
    let mut t: Vec<i128> = Vec::new();
    let mut i: usize = 0;
    while i < n
        invariant
            n <= diag_len(d@),
            i <= n,
            t@.len() == i,
            forall|x: int| 0 <= x < i ==> (#[trigger] t@[x]) == d@.e[x][x],
        decreases n - i,
    {
        t.push(d.get(i, i));
        i += 1;
    }
    assert(ints(t@) =~= diag_prefix(d@, n as int));
    t
}

/// Reads the reduced image basis, its torsion orders and the reduced
/// kernel basis off a Smith normal form. The result is
/// [`cohomology_spec`] of the decomposition, and the call fails exactly
/// when that leaves `i128`.
pub fn cohomology_from(s: Decomposed) -> (r: Result<
    (IntMatrix, Vec<i128>, IntMatrix),
    HomologyError,
>)
    requires
        smith_form(s.b@),
        s.q@.cols == s.b@.cols,
        s.p_inv@.cols == s.b@.rows,
    ensures
        match r {
            Ok((b, t, z)) => cohomology_spec(s.q@, s.p_inv@, s.b@) == Some(
                Cohomology { b: b@, t: ints(t@), z: z@ },
            ) && t@.len() == b@.cols && orders_positive(ints(t@)),
            Err(e) => e == HomologyError::Overflow && cohomology_spec(s.q@, s.p_inv@, s.b@)
                is None,
        },
{
    let n: usize = rank(&s.b);
    let z0 = sub_columns(&s.q, n, s.q.ncols());
    let b0 = sub_columns(&s.p_inv, 0, n);
    let t0 = diagonal(&s.b, n);
    proof {
        assert forall|j: int| 0 <= j < ints(t0@).len() implies (#[trigger] ints(t0@)[j]) >= 1 by {
            assert(s.b@.e[j][j] > 0);
        }
    }
    let z = col_r(z0)?;
    let (b, t) = col_r_same_tor(b0, t0)?;
    Ok((b, t, z))
}

/// The bases that the operator `m` yields: those read off the Smith
/// normal form that the reduction of `m` ends with. `None` when the
/// reduction, or a column reduction after it, leaves `i128`.
pub open spec fn cohomology_run(m: Mat) -> Option<Cohomology> {
    match smith_normalize_spec(m) {
        None => None,
        Some(w) => cohomology_spec(w.q, w.p_inv, w.b),
    }
}

/// The image basis with its torsion orders and the kernel basis of the
/// operator `m`, read off the Smith normal form of `m`: the result is
/// [`cohomology_run`] of `m`, and the call fails exactly when that
/// leaves the machine's integers. The columns of `z` are a basis of the
/// kernel of `m`, and every order is at least 1.
pub fn calc_cohomology(m: &IntMatrix) -> (r: Result<
    (IntMatrix, Vec<i128>, IntMatrix),
    HomologyError,
>)
    ensures
        match r {
            Ok((b, t, z)) => {
                &&& cohomology_run(m@) == Some(Cohomology { b: b@, t: ints(t@), z: z@ })
                &&& is_kernel_basis(z@, m@)
                &&& t@.len() == b@.cols
                &&& orders_positive(ints(t@))
            },
            Err(e) => e == HomologyError::Overflow && cohomology_run(m@) is None,
        },
{
    let s = smith_normalize(m)?;
    let ghost s0 = s;
    let r = cohomology_from(s)?;
    proof {
        let rk = diag_rank(s0.b@);
        let z0 = columns(s0.q@, rk, s0.q@.cols as int);
        lemma_smith_kernel_basis(s0, m@);
        lemma_reduce_kernel(m@, z0, z0.cols as int);
    }
    Ok(r)
}

/// The pivot row of column `j` of `m`, if the column is not zero.
pub open spec fn column_pivot(m: Mat, j: int) -> Option<int> {
    if pivot_row(m, j) < m.rows {
        Some(pivot_row(m, j))
    } else {
        None
    }
}

/// The first column of `b` at or after `j` whose pivot row is `p`, or
/// the number of columns when there is none.
pub open spec fn first_match_from(b: Mat, p: int, j: int) -> int
    decreases b.cols - j,
{
    if j >= b.cols {
        b.cols as int
    } else if column_pivot(b, j) == Some(p) {
        j
    } else {
        first_match_from(b, p, j + 1)
    }
}

/// What cycle column `j` of `z` contributes to the homology group: a
/// free summand, written as order 1, when no boundary column shares its
/// pivot row; a summand of order `t` when the first that does has an
/// order `t > 1`; nothing when that order is 1, or the column is zero.
pub open spec fn summand(z: Mat, b: Mat, t: Seq<int>, j: int) -> Option<int> {
    match column_pivot(z, j) {
        None => None,
        Some(p) => {
            let jb = first_match_from(b, p, 0);
            if jb >= b.cols {
                Some(1)
            } else if t[jb] > 1 {
                Some(t[jb])
            } else {
                None
            }
        },
    }
}

/// The cycle columns before `n` that contribute, each with its order,
/// in the order of the columns.
pub open spec fn selection(z: Mat, b: Mat, t: Seq<int>, n: int) -> Seq<(int, int)>
    decreases n,
{
    if n <= 0 {
        Seq::empty()
    } else {
        let prev = selection(z, b, t, n - 1);
        match summand(z, b, t, n - 1) {
            Some(o) => prev.push((n - 1, o)),
            None => prev,
        }
    }
}

/// The homology group record of a cycle basis `z` against a boundary
/// basis `b` with orders `t`: the contributing cycle columns, in their
/// order, and the order of each.
pub open spec fn homology_spec(z: Mat, b: Mat, t: Seq<int>) -> (Mat, Seq<int>) {
    let sel = selection(z, b, t, z.cols as int);
    (
        Mat::new(z.rows, sel.len(), |i: int, c: int| z.e[i][sel[c].0]),
        Seq::new(sel.len(), |c: int| sel[c].1),
    )
}

/// The chosen columns and orders of an executable selection, as integers.
pub open spec fn chosen(v: Seq<(usize, i128)>) -> Seq<(int, int)> {
    v.map_values(|x: (usize, i128)| (x.0 as int, x.1 as int))
}

/// The selection holds at most one entry for each column read, and
/// names only columns that were read.
pub proof fn lemma_selection(z: Mat, b: Mat, t: Seq<int>, n: int)
    requires
        0 <= n,
    ensures
        selection(z, b, t, n).len() <= n,
        forall|c: int|
            0 <= c < selection(z, b, t, n).len() ==> 0 <= (#[trigger] selection(z, b, t, n)[c]).0
                < n,
    decreases n,
{
    if n > 0 {
        lemma_selection(z, b, t, n - 1);
    }
}

/// The first boundary column among `pivots` whose pivot row is `p`.
fn find_match(pivots: &Vec<Option<usize>>, p: usize, Ghost(b): Ghost<Mat>) -> (r: Option<usize>)
    requires
        pivots@.len() == b.cols,
        forall|j: int| 0 <= j < b.cols ==> is_pivot_of(#[trigger] pivots@[j], b, j),
    ensures
        match r {
            Some(jb) => jb == first_match_from(b, p as int, 0) && jb < b.cols,
            None => first_match_from(b, p as int, 0) == b.cols,
        },
{
    let mut j: usize = 0;
    while j < pivots.len()
        invariant
            j <= pivots@.len(),
            pivots@.len() == b.cols,
            forall|y: int| 0 <= y < b.cols ==> is_pivot_of(#[trigger] pivots@[y], b, y),
            first_match_from(b, p as int, 0) == first_match_from(b, p as int, j as int),
        decreases pivots@.len() - j,
    {
        let hit: bool = match pivots[j] {
            Some(pb) => pb == p,
            None => false,
        };
        proof {
            assert(is_pivot_of(pivots@[j as int], b, j as int));
        }
        if hit {
            return Some(j);
        }
        j += 1;
    }
    None
}

/// Matches a cycle basis against a boundary basis with torsion orders:
/// each cycle column, in order, is kept with order 1 when no boundary
/// column has its pivot row, kept with order `t` when the first
/// boundary column on its pivot row has order `t > 1`, and dropped
/// otherwise.
pub fn match_generators(z1: &IntMatrix, b1: &IntMatrix, t1: &Vec<i128>) -> (r: (
    IntMatrix,
    Vec<i128>,
))
    requires
        t1@.len() == b1@.cols,
    ensures
        (r.0@, ints(r.1@)) == homology_spec(z1@, b1@, ints(t1@)),
{
    let ghost z = z1@;
    let ghost b = b1@;
    let ghost t = ints(t1@);
    let z_nz = np_map(z1);
    let b_nz = np_map(b1);
    let nr: usize = z1.nrows();
    let nc: usize = z1.ncols();
    let mut non_trivial: Vec<(usize, i128)> = Vec::new();
    let mut j: usize = 0;
    while j < nc
        invariant
            z == z1@,
            b == b1@,
            t == ints(t1@),
            t1@.len() == b.cols,
            nc == z.cols,
            j <= nc,
            z_nz@.len() == z.cols,
            b_nz@.len() == b.cols,
            forall|y: int| 0 <= y < z.cols ==> is_pivot_of(#[trigger] z_nz@[y], z, y),
            forall|y: int| 0 <= y < b.cols ==> is_pivot_of(#[trigger] b_nz@[y], b, y),
            chosen(non_trivial@) == selection(z, b, t, j as int),
        decreases nc - j,
    {
        let ghost before = chosen(non_trivial@);
        proof {
            assert(is_pivot_of(z_nz@[j as int], z, j as int));
        }
        match z_nz[j] {
            None => {},
            Some(p) => {
                match find_match(&b_nz, p, Ghost(b)) {
                    None => {
                        non_trivial.push((j, 1));
                        proof {
                            assert(chosen(non_trivial@) =~= before.push((j as int, 1int)));
                        }
                    },
                    Some(jb) => {
                        let o: i128 = t1[jb];
                        proof {
                            assert(t[jb as int] == o);
                        }
                        if o > 1 {
                            non_trivial.push((j, o));
                            proof {
                                assert(chosen(non_trivial@) =~= before.push((j as int, o as int)));
                            }
                        }
                    },
                }
            },
        }
        j += 1;
    }
    let n: usize = non_trivial.len();
    proof {
        lemma_selection(z, b, t, nc as int);
        assert(nr * n <= nr * nc) by (nonlinear_arith)
            requires
                n <= nc,
                nr >= 0,
        ;
    }
    let mut g = IntMatrix::zeros(nr, n);
    let mut o: Vec<i128> = Vec::new();
    let mut c: usize = 0;
    while c < n
        invariant
            z == z1@,
            nr == z.rows,
            nc == z.cols,
            n == non_trivial@.len(),
            c <= n,
            g@.rows == nr,
            g@.cols == n,
            o@.len() == c,
            chosen(non_trivial@) == selection(z, b, t, nc as int),
            forall|y: int|
                0 <= y < n ==> 0 <= (#[trigger] selection(z, b, t, nc as int)[y]).0 < nc,
            forall|y: int| 0 <= y < c ==> (#[trigger] o@[y]) == non_trivial@[y].1,
            forall|x: int, y: int|
                g@.has(x, y) && y < c ==> #[trigger] g@.e[x][y] == z.e[x][non_trivial@[y].0 as int],
        decreases n - c,
    {
        let (src, ord) = non_trivial[c];
        proof {
            assert(chosen(non_trivial@)[c as int] == (src as int, ord as int));
            assert(0 <= selection(z, b, t, nc as int)[c as int].0 < nc);
        }
        let mut i: usize = 0;
        while i < nr
            invariant
                z == z1@,
                nr == z.rows,
                nc == z.cols,
                src < nc,
                src == non_trivial@[c as int].0,
                n == non_trivial@.len(),
                c < n,
                i <= nr,
                g@.rows == nr,
                g@.cols == n,
                forall|x: int, y: int|
                    g@.has(x, y) && (y < c || (y == c && x < i)) ==> #[trigger] g@.e[x][y]
                        == z.e[x][non_trivial@[y].0 as int],
            decreases nr - i,
        {
            let v: i128 = z1.get(i, src);
            g.set(i, c, v);
            i += 1;
        }
        o.push(ord);
        c += 1;
    }
    proof {
        let want = homology_spec(z, b, t);
        let sel = selection(z, b, t, nc as int);
        assert forall|x: int, y: int| g@.has(x, y) implies #[trigger] g@.e[x][y]
            == want.0.e[x][y] by {
            assert(chosen(non_trivial@)[y] == sel[y]);
        }
        assert(g@ =~~= want.0);
        assert forall|y: int| 0 <= y < n implies (#[trigger] ints(o@)[y]) == want.1[y] by {
            assert(chosen(non_trivial@)[y] == sel[y]);
        }
        assert(ints(o@) =~= want.1);
    }
    (g, o)
}

/// The orders of `n` free summands.
pub open spec fn all_free(n: nat) -> Seq<int> {
    Seq::new(n, |i: int| 1int)
}

/// The cycle basis of the operator `d1` that leaves a chain group: the
/// identity when `d1` is zero, so that every chain is a cycle, and
/// otherwise the reduced kernel basis of `d1`. `None` when it cannot be
/// had within the machine's integers.
pub open spec fn cycle_basis_run(d1: Mat) -> Option<Mat> {
    if d1.is_zero() {
        if d1.cols * d1.cols > usize::MAX {
            None
        } else {
            Some(Mat::identity(d1.cols))
        }
    } else {
        match cohomology_run(d1) {
            None => None,
            Some(c) => Some(c.z),
        }
    }
}

/// The boundary basis, with its orders, of the operator `d2` that
/// enters a chain group: empty when `d2` has no entries, and otherwise
/// the reduced image basis of `d2`. `None` when it cannot be had within
/// the machine's integers.
pub open spec fn boundary_basis_run(d2: Mat) -> Option<(Mat, Seq<int>)> {
    if d2.rows == 0 || d2.cols == 0 {
        Some((Mat::zeros(0, 0), Seq::<int>::empty()))
    } else {
        match cohomology_run(d2) {
            None => None,
            Some(c) => Some((c.b, c.t)),
        }
    }
}

/// The homology group record between the operators `d1`, which leaves
/// the chain group, and `d2`, which enters it: the cycle basis of `d1`
/// matched against the boundary basis of `d2`. `None` when one of the
/// bases cannot be had within the machine's integers.
pub open spec fn homology_run(d1: Mat, d2: Mat) -> Option<(Mat, Seq<int>)> {
    match cycle_basis_run(d1) {
        None => None,
        Some(z) => match boundary_basis_run(d2) {
            None => None,
            Some(bt) => Some(homology_spec(z, bt.0, bt.1)),
        },
    }
}

/// An independent family has no zero column.
proof fn lemma_independent_column(z: Mat, j: int)
    requires
        z.wf(),
        independent(z),
        0 <= j < z.cols,
    ensures
        pivot_row(z, j) < z.rows,
{
    lemma_pivot_row(z, j, 0);
    if pivot_row(z, j) >= z.rows {
        let y = Mat::new(z.cols, 1, |i: int, c: int| if i == j { 1int } else { 0int });
        let zy = z.mul(y);
        assert forall|i: int, c: int| zy.has(i, c) implies (#[trigger] zy.e[i][c]) == 0 by {
            lemma_dot_unit_right(z.e[i], y.col(0), j, z.cols);
            assert(z.e[i][j] == 0);
        }
        assert(y.e[j][0] == 1);
    }
}

/// Against an empty boundary basis every column of an independent
/// family is kept as a free summand.
proof fn lemma_all_selected(z: Mat, k: int)
    requires
        z.wf(),
        independent(z),
        0 <= k <= z.cols,
    ensures
        selection(z, Mat::zeros(0, 0), Seq::<int>::empty(), k) == Seq::new(
            k as nat,
            |c: int| (c, 1int),
        ),
    decreases k,
{
    let b = Mat::zeros(0, 0);
    let t = Seq::<int>::empty();
    if k > 0 {
        lemma_all_selected(z, k - 1);
        lemma_independent_column(z, k - 1);
        assert(summand(z, b, t, k - 1) == Some(1int));
        assert(selection(z, b, t, k) =~= Seq::new(k as nat, |c: int| (c, 1int)));
    } else {
        assert(selection(z, b, t, k) =~= Seq::new(k as nat, |c: int| (c, 1int)));
    }
}

/// Where nothing is a boundary the homology group is the group of
/// cycles: every column of the cycle basis is kept, as a free summand.
pub proof fn lemma_no_boundaries(z: Mat)
    requires
        z.wf(),
        independent(z),
    ensures
        homology_spec(z, Mat::zeros(0, 0), Seq::<int>::empty()) == (z, all_free(z.cols)),
{
    lemma_all_selected(z, z.cols as int);
    let h = homology_spec(z, Mat::zeros(0, 0), Seq::<int>::empty());
    assert(h.0 =~~= z);
    assert(h.1 =~= all_free(z.cols));
}

/// The columns of an identity matrix are a basis of the kernel of a
/// zero matrix.
pub proof fn lemma_identity_kernel_basis(d1: Mat)
    requires
        d1.wf(),
        d1.is_zero(),
    ensures
        is_kernel_basis(Mat::identity(d1.cols), d1),
{
    let id = Mat::identity(d1.cols);
    lemma_mul_identity(d1);
    assert forall|x: Mat| #[trigger] in_kernel(d1, x) implies exists|y: Mat| #[trigger]
        combines_to(id, y, x) by {
        lemma_identity_mul(x);
        assert(combines_to(id, x, x));
    }
    assert forall|y: Mat| is_vector(y, id.cols) && (#[trigger] id.mul(y)).is_zero() implies y.is_zero() by {
        lemma_identity_mul(y);
    }
}

/// Where every chain is a cycle and nothing is a boundary, the homology
/// group is free on the whole basis: the generators are the identity
/// and every order is 1.
pub proof fn lemma_free_homology(d1: Mat, d2: Mat)
    requires
        d1.wf(),
        d1.is_zero(),
        d2.rows == 0 || d2.cols == 0,
        d1.cols * d1.cols <= usize::MAX,
    ensures
        homology_run(d1, d2) == Some((Mat::identity(d1.cols), all_free(d1.cols))),
{
    lemma_identity_kernel_basis(d1);
    lemma_no_boundaries(Mat::identity(d1.cols));
}

/// The columns that a selection names come in increasing order.
pub proof fn lemma_selection_increasing(z: Mat, b: Mat, t: Seq<int>, n: int)
    requires
        0 <= n,
    ensures
        forall|c: int, d: int|
            0 <= c < d < selection(z, b, t, n).len() ==> (#[trigger] selection(z, b, t, n)[c]).0 < (
            #[trigger] selection(z, b, t, n)[d]).0,
    decreases n,
{
    if n > 0 {
        lemma_selection_increasing(z, b, t, n - 1);
        lemma_selection(z, b, t, n - 1);
    }
}

/// The coefficients `y` of the selected columns, spread out over all
/// the first `n` columns, with zeros for those that were not selected.
pub open spec fn spread(y: Mat, z: Mat, b: Mat, t: Seq<int>, n: int) -> Seq<int>
    decreases n,
{
    if n <= 0 {
        Seq::empty()
    } else {
        let prev = spread(y, z, b, t, n - 1);
        match summand(z, b, t, n - 1) {
            Some(_) => prev.push(y.e[selection(z, b, t, n - 1).len() as int][0]),
            None => prev.push(0),
        }
    }
}

/// Combining the selected columns with the coefficients `y` is
/// combining all columns with the coefficients spread out.
proof fn lemma_spread(u: Seq<int>, y: Mat, z: Mat, b: Mat, t: Seq<int>, n: int)
    requires
        0 <= n,
        y.wf(),
        y.cols == 1,
        selection(z, b, t, n).len() <= y.rows,
    ensures
        spread(y, z, b, t, n).len() == n,
        dot(u, spread(y, z, b, t, n), n as nat) == dot(
            Seq::new(
                selection(z, b, t, n).len(),
                |c: int| u[selection(z, b, t, n)[c].0],
            ),
            y.col(0),
            selection(z, b, t, n).len(),
        ),
    decreases n,
{
    if n > 0 {
        lemma_spread(u, y, z, b, t, n - 1);
        let sel0 = selection(z, b, t, n - 1);
        let sel = selection(z, b, t, n);
        let sp0 = spread(y, z, b, t, n - 1);
        let sp = spread(y, z, b, t, n);
        let g0 = Seq::new(sel0.len(), |c: int| u[sel0[c].0]);
        let g = Seq::new(sel.len(), |c: int| u[sel[c].0]);
        let yc = y.col(0);
        lemma_dot_congruent(u, sp, u, sp0, (n - 1) as nat);
        lemma_dot_congruent(g, yc, g0, yc, sel0.len());
        assert(dot(u, sp, n as nat) == dot(u, sp, (n - 1) as nat) + u[n - 1] * sp[n - 1]);
        match summand(z, b, t, n - 1) {
            Some(o) => {
                let k = sel0.len() as int;
                assert(sel == sel0.push((n - 1, o)));
                assert(sp[n - 1] == y.e[k][0]);
                assert(yc[k] == y.e[k][0]);
                assert(g[k] == u[n - 1]);
                assert(dot(g, yc, sel.len()) == dot(g, yc, sel0.len()) + g[k] * yc[k]);
            },
            None => {
                assert(sp[n - 1] == 0);
                assert(u[n - 1] * 0 == 0);
                assert(sel == sel0);
            },
        }
    }
}

/// A selection out of independent columns is independent.
pub proof fn lemma_selected_independent(z: Mat, b: Mat, t: Seq<int>)
    requires
        z.wf(),
        independent(z),
    ensures
        independent(homology_spec(z, b, t).0),
{
    let g = homology_spec(z, b, t).0;
    let n = z.cols as int;
    let sel = selection(z, b, t, n);
    lemma_selection(z, b, t, n);
    lemma_selection_increasing(z, b, t, n);
    assert forall|y: Mat| is_vector(y, g.cols) && (#[trigger] g.mul(y)).is_zero() implies y.is_zero() by {
        let sp = spread(y, z, b, t, n);
        lemma_spread(z.e[0], y, z, b, t, n);
        let full = Mat::new(z.cols, 1, |i: int, j: int| sp[i]);
        let zf = z.mul(full);
        assert forall|i: int, j: int| zf.has(i, j) implies (#[trigger] zf.e[i][j]) == 0 by {
            lemma_spread(z.e[i], y, z, b, t, n);
            assert(full.col(0) =~= sp);
            assert(g.e[i] =~= Seq::new(sel.len(), |c: int| z.e[i][sel[c].0]));
            assert(g.mul(y).e[i][0] == 0);
        }
        assert(full.is_zero());
        assert forall|c: int, j: int| y.has(c, j) implies (#[trigger] y.e[c][j]) == 0 by {
            lemma_spread_entry(y, z, b, t, n, c);
            assert(full.e[sel[c].0][0] == 0);
        }
    }
}

/// The coefficient of the `c`-th selected column stands, in the spread,
/// at the place of that column.
proof fn lemma_spread_entry(y: Mat, z: Mat, b: Mat, t: Seq<int>, n: int, c: int)
    requires
        0 <= n,
        y.wf(),
        y.cols == 1,
        0 <= c < selection(z, b, t, n).len(),
    ensures
        0 <= selection(z, b, t, n)[c].0 < n,
        spread(y, z, b, t, n).len() == n,
        spread(y, z, b, t, n)[selection(z, b, t, n)[c].0] == y.e[c][0],
    decreases n,
{
    lemma_selection(z, b, t, n);
    if n > 0 {
        lemma_selection(z, b, t, n - 1);
        let sel0 = selection(z, b, t, n - 1);
        lemma_spread_len(y, z, b, t, n - 1);
        if c < sel0.len() {
            lemma_spread_entry(y, z, b, t, n - 1, c);
        }
    }
}

/// The spread has one coefficient for each column.
proof fn lemma_spread_len(y: Mat, z: Mat, b: Mat, t: Seq<int>, n: int)
    requires
        0 <= n,
    ensures
        spread(y, z, b, t, n).len() == n,
    decreases n,
{
    if n > 0 {
        lemma_spread_len(y, z, b, t, n - 1);
    }
}

/// The columns picked out of a cycle basis are cycles again, and there
/// is one order for each of them.
pub proof fn lemma_selected_are_cycles(d1: Mat, z: Mat, b: Mat, t: Seq<int>)
    requires
        d1.wf(),
        z.wf(),
        z.rows == d1.cols,
        d1.mul(z).is_zero(),
    ensures
        homology_spec(z, b, t).0.wf(),
        homology_spec(z, b, t).0.rows == d1.cols,
        homology_spec(z, b, t).1.len() == homology_spec(z, b, t).0.cols,
        d1.mul(homology_spec(z, b, t).0).is_zero(),
{
    let g = homology_spec(z, b, t).0;
    lemma_selection(z, b, t, z.cols as int);
    let sel = selection(z, b, t, z.cols as int);
    let m = d1.mul(g);
    assert forall|i: int, c: int| m.has(i, c) implies (#[trigger] m.e[i][c]) == 0 by {
        let src = sel[c].0;
        assert(g.col(c) =~= z.col(src));
        assert(d1.mul(z).e[i][src] == 0);
    }
}

/// The columns of `g` are independent cycles of the operator `d1`: `d1`
/// sends each of them to zero, and no integer combination of them
/// vanishes but the trivial one.
pub open spec fn independent_cycles(g: Mat, d1: Mat) -> bool {
    &&& g.wf()
    &&& g.rows == d1.cols
    &&& d1.mul(g).is_zero()
    &&& independent(g)
}

/// The homology group between two consecutive boundary operators: `d1`
/// leaves the chain group and `d2` enters it. The record holds the
/// cycles that generate the group, one column each, and their orders: 1
/// for a free summand, `t > 1` for a cyclic summand of order `t`.
///
/// The result is [`homology_run`] of the two operators, and the call
/// fails exactly when that leaves the machine's integers. The
/// generators are independent cycles: `d1` sends each to zero. Where
/// `d2` has no entries, so that nothing is a boundary, they are a basis
/// of the kernel of `d1` and every one of them is free.
pub fn calc_homology(d1: &IntMatrix, d2: &IntMatrix) -> (r: Result<
    (IntMatrix, Vec<i128>),
    HomologyError,
>)
    ensures
        match r {
            Ok((g, o)) => {
                &&& homology_run(d1@, d2@) == Some((g@, ints(o@)))
                &&& g@.cols == o@.len()
                &&& independent_cycles(g@, d1@)
                &&& d2@.rows == 0 || d2@.cols == 0 ==> is_kernel_basis(g@, d1@) && ints(o@)
                    == all_free(g@.cols)
            },
            Err(e) => e == HomologyError::Overflow && homology_run(d1@, d2@) is None,
        },
{
    proof {
        lemma_view_wf(*d1);
    }
    let z1 = if !is_zeros(d1) {
        let (_, _, z) = calc_cohomology(d1)?;
        z
    } else {
        let n: usize = d1.ncols();
        if n.checked_mul(n).is_none() {
            return Err(HomologyError::Overflow);
        }
        let z = IntMatrix::identity(n);
        proof {
            lemma_identity_kernel_basis(d1@);
        }
        z
    };
    let b1: IntMatrix;
    let t1: Vec<i128>;
    if d2.nrows() == 0 || d2.ncols() == 0 {
        b1 = IntMatrix::zeros(0, 0);
        t1 = Vec::new();
        proof {
            assert(ints(t1@) =~= Seq::<int>::empty());
        }
    } else {
        let (b, t, _) = calc_cohomology(d2)?;
        b1 = b;
        t1 = t;
    }
    let r = match_generators(&z1, &b1, &t1);
    proof {
        lemma_view_wf(z1);
        lemma_selected_are_cycles(d1@, z1@, b1@, ints(t1@));
        lemma_selected_independent(z1@, b1@, ints(t1@));
        if d2@.rows == 0 || d2@.cols == 0 {
            lemma_no_boundaries(z1@);
        }
    }
    Ok(r)
}

/// The records of a list of homology groups, as values.
pub open spec fn records(v: Seq<(IntMatrix, Vec<i128>)>) -> Seq<(Mat, Seq<int>)> {
    Seq::new(v.len(), |k: int| (v[k].0@, ints(v[k].1@)))
}

/// The four boundary operators of a complex.
pub open spec fn boundary_operators(sc: SimplicalComplex) -> (Mat, Mat, Mat, Mat) {
    (
        Mat::zeros(1, sc.verts@.len()),
        boundary_matrix(simplices(sc.verts@), simplices(sc.edges@)),
        boundary_matrix(simplices(sc.edges@), simplices(sc.faces@)),
        Mat::zeros(0, 0),
    )
}

/// The homology group records of a complex in dimensions 0, 1 and 2,
/// each between the boundary operator that leaves its chain group and
/// the one that enters it; `MalformedComplex` for a complex that is not
/// closed under taking faces, and otherwise `Overflow` when a boundary
/// operator has more entries than a `usize` can count or a record
/// cannot be had within the machine's integers.
pub open spec fn calc_homology_groups_spec(sc: SimplicalComplex) -> Result<
    Seq<(Mat, Seq<int>)>,
    HomologyError,
> {
    let d = boundary_operators(sc);
    if !well_formed(sc) {
        Err(HomologyError::MalformedComplex)
    } else if sc.verts@.len() * sc.edges@.len() > usize::MAX || sc.edges@.len() * sc.faces@.len()
        > usize::MAX {
        Err(HomologyError::Overflow)
    } else {
        match (homology_run(d.0, d.1), homology_run(d.1, d.2), homology_run(d.2, d.3)) {
            (Some(h0), Some(h1), Some(h2)) => Ok(seq![h0, h1, h2]),
            _ => Err(HomologyError::Overflow),
        }
    }
}

/// In every dimension the generators in `v` are independent cycles of
/// the complex `sc`: the boundary operator that leaves their chain
/// group sends them to zero.
pub open spec fn generators_are_cycles(
    v: Seq<(IntMatrix, Vec<i128>)>,
    sc: SimplicalComplex,
) -> bool {
    let d = boundary_operators(sc);
    &&& independent_cycles(v[0].0@, d.0)
    &&& independent_cycles(v[1].0@, d.1)
    &&& independent_cycles(v[2].0@, d.2)
}

/// The homology groups of a complex in dimensions 0, 1 and 2: for each
/// dimension the generating cycles, as columns over the simplices of
/// that dimension, and their orders.
///
/// The result is [`calc_homology_groups_spec`] of the complex: the call
/// fails with `MalformedComplex` exactly when the complex is not closed
/// under taking faces, and otherwise with `Overflow` exactly when the
/// computation leaves the machine's integers.
pub fn calc_homology_groups(sc: SimplicalComplex) -> (r: Result<
    Vec<(IntMatrix, Vec<i128>)>,
    HomologyError,
>)
    ensures
        match r {
            Ok(v) => {
                &&& calc_homology_groups_spec(sc) is Ok
                &&& calc_homology_groups_spec(sc)->Ok_0 == records(v@)
                &&& v@.len() == 3
                &&& generators_are_cycles(v@, sc)
            },
            Err(e) => calc_homology_groups_spec(sc) is Err && calc_homology_groups_spec(sc)->Err_0
                == e,
        },
{
    let (d0, d1, d2, d3) = calc_boundary_operators(&sc)?;
    let mut g: Vec<(IntMatrix, Vec<i128>)> = Vec::new();
    let h0 = calc_homology(&d0, &d1)?;
    g.push(h0);
    let h1 = calc_homology(&d1, &d2)?;
    g.push(h1);
    let h2 = calc_homology(&d2, &d3)?;
    g.push(h2);
    proof {
        let d = boundary_operators(sc);
        assert(records(g@) =~= seq![
            homology_run(d.0, d.1).unwrap(),
            homology_run(d.1, d.2).unwrap(),
            homology_run(d.2, d.3).unwrap(),
        ]);
    }
    Ok(g)
}

} // verus!
