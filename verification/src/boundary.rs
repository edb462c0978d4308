//! The simplicial complex and its boundary operators.

use vstd::prelude::*;
use crate::error::HomologyError;
use crate::matrix::{IntMatrix, Mat};

verus! {

/// A simplicial complex of dimension at most two: its vertices, edges
/// and faces, each an ordered list of vertex identifiers. The order of
/// each list is the basis order of the chain group in that dimension.
#[derive(Debug)]
pub struct SimplicalComplex {
    pub verts: Vec<Vec<usize>>,
    pub edges: Vec<Vec<usize>>,
    pub faces: Vec<Vec<usize>>,
}

/// The simplices of a list, each as a sequence of vertices.
pub open spec fn simplices(c: Seq<Vec<usize>>) -> Seq<Seq<usize>> {
    Seq::new(c.len(), |i: int| c[i]@)
}

/// The face of `s` opposite the vertex at position `i`.
pub open spec fn face(s: Seq<usize>, i: int) -> Seq<usize> {
    s.remove(i)
}

/// The basis simplex `b` is the face `f`: they have the same number of
/// vertices and every vertex of `b` occurs in `f`.
pub open spec fn same_simplex(b: Seq<usize>, f: Seq<usize>) -> bool {
    b.len() == f.len() && forall|x: int| 0 <= x < b.len() ==> f.contains(#[trigger] b[x])
}

/// The first index at or after `i` of a basis simplex that is the face
/// `f`, or the length of the basis when there is none.
pub open spec fn find_face_from(c: Seq<Seq<usize>>, f: Seq<usize>, i: int) -> int
    decreases c.len() - i,
{
    if i >= c.len() {
        c.len() as int
    } else if same_simplex(c[i], f) {
        i
    } else {
        find_face_from(c, f, i + 1)
    }
}

/// The index of the first basis simplex that is the face `f`, or the
/// length of the basis when there is none.
pub open spec fn find_face(c: Seq<Seq<usize>>, f: Seq<usize>) -> int {
    find_face_from(c, f, 0)
}

/// The face `f` occurs in the basis `c`.
pub open spec fn face_present(c: Seq<Seq<usize>>, f: Seq<usize>) -> bool {
    exists|b: int| 0 <= b < c.len() && same_simplex(#[trigger] c[b], f)
}

/// Every face of the simplex `s` occurs in the basis `c`.
pub open spec fn faces_present(s: Seq<usize>, c: Seq<Seq<usize>>) -> bool {
    forall|i: int| 0 <= i < s.len() ==> face_present(c, #[trigger] face(s, i))
}

/// Every face of every simplex of `c2` occurs in the basis `c1`.
pub open spec fn all_faces_present(c1: Seq<Seq<usize>>, c2: Seq<Seq<usize>>) -> bool {
    forall|j: int| 0 <= j < c2.len() ==> faces_present(#[trigger] c2[j], c1)
}

/// The complex is closed under taking faces: the ends of every edge are
/// vertices of the complex and the sides of every face are edges of it.
pub open spec fn well_formed(sc: SimplicalComplex) -> bool {
    &&& all_faces_present(simplices(sc.verts@), simplices(sc.edges@))
    &&& all_faces_present(simplices(sc.edges@), simplices(sc.faces@))
}

/// The sign of the permutation that carries the stored simplex `l1` to
/// the face `l2`: for two vertices, whether they stand in the same
/// order; for three, whether one is a rotation of the other. A single
/// vertex has sign 1.
pub open spec fn perm_sign_spec(l1: Seq<usize>, l2: Seq<usize>) -> int {
    if l2.len() == 2 {
        if l1[0] == l2[0] {
            1
        } else {
            -1
        }
    } else if l2.len() == 3 {
        if (l1[0] == l2[0] && l1[1] == l2[1] && l1[2] == l2[2]) || (l1[0] == l2[1] && l1[1] == l2[2]
            && l1[2] == l2[0]) || (l1[0] == l2[2] && l1[1] == l2[0] && l1[2] == l2[1]) {
            1
        } else {
            -1
        }
    } else {
        1
    }
}

/// The first position at or after `i` where `v` stands in `l`, or the
/// length of `l` when it stands nowhere.
pub open spec fn position_from(l: Seq<usize>, v: usize, i: int) -> int
    decreases l.len() - i,
{
    if i >= l.len() {
        l.len() as int
    } else if l[i] == v {
        i
    } else {
        position_from(l, v, i + 1)
    }
}

/// Where `v` first stands in `l`.
pub open spec fn position(l: Seq<usize>, v: usize) -> int {
    position_from(l, v, 0)
}

/// How many of the entries of `l1` between positions `a` and `n` stand
/// before `l1[a]` in `l2`.
pub open spec fn inversions_with(l1: Seq<usize>, l2: Seq<usize>, a: int, n: int) -> int
    decreases n - a,
{
    if n <= a + 1 {
        0
    } else {
        inversions_with(l1, l2, a, n - 1) + (if position(l2, l1[a]) > position(l2, l1[n - 1]) {
            1int
        } else {
            0int
        })
    }
}

/// The number of pairs among the first `n` entries of `l1` that stand
/// in the opposite order in `l2`.
pub open spec fn inversions(l1: Seq<usize>, l2: Seq<usize>, n: int) -> int
    decreases n,
{
    if n <= 0 {
        0
    } else {
        inversions(l1, l2, n - 1) + inversions_with(l1, l2, n - 1, l1.len() as int)
    }
}

/// The sign of the permutation that rearranges `l2` into `l1`: 1 when
/// an even number of pairs changes order, -1 when an odd number does.
pub open spec fn permutation_sign(l1: Seq<usize>, l2: Seq<usize>) -> int {
    if inversions(l1, l2, l1.len() as int) % 2 == 0 {
        1
    } else {
        -1
    }
}

/// `l1` is a rearrangement of `l2`: no vertex stands twice in either and
/// every vertex of `l1` stands in `l2`.
pub open spec fn is_rearrangement(l1: Seq<usize>, l2: Seq<usize>) -> bool {
    &&& l1.len() == l2.len()
    &&& forall|a: int, b: int| 0 <= a < b < l1.len() ==> l1[a] != l1[b]
    &&& forall|a: int, b: int| 0 <= a < b < l2.len() ==> l2[a] != l2[b]
    &&& forall|a: int| 0 <= a < l1.len() ==> l2.contains(#[trigger] l1[a])
}

/// For simplices of up to three vertices the sign that the boundary
/// uses is the sign of the permutation between the two vertex orders.
pub proof fn lemma_perm_sign_is_parity(l1: Seq<usize>, l2: Seq<usize>)
    requires
        is_rearrangement(l1, l2),
        l1.len() <= 3,
    ensures
        perm_sign_spec(l1, l2) == permutation_sign(l1, l2),
{
    reveal_with_fuel(position_from, 4);
    reveal_with_fuel(inversions_with, 4);
    reveal_with_fuel(inversions, 4);
    if l1.len() == 2 {
        assert(l2.contains(l1[0]));
        assert(l2.contains(l1[1]));
    } else if l1.len() == 3 {
        assert(l2.contains(l1[0]));
        assert(l2.contains(l1[1]));
        assert(l2.contains(l1[2]));
    }
}

/// The sign that position `i` contributes to a boundary: 1 for even
/// positions, -1 for odd ones.
pub open spec fn alternating(i: int) -> int {
    if i % 2 == 0 {
        1
    } else {
        -1
    }
}

/// The boundary of `s` in the basis `c` after the faces opposite the
/// first `n` positions have been entered, or `None` when one of them is
/// missing from the basis.
pub open spec fn boundary_upto(s: Seq<usize>, c: Seq<Seq<usize>>, n: int) -> Option<Seq<int>>
    decreases n,
{
    if n <= 0 {
        Some(Seq::new(c.len(), |i: int| 0int))
    } else {
        match boundary_upto(s, c, n - 1) {
            None => None,
            Some(v) => {
                let f = face(s, n - 1);
                let id = find_face(c, f);
                if id >= c.len() {
                    None
                } else {
                    Some(v.update(id, alternating(n - 1) * perm_sign_spec(c[id], f)))
                }
            },
        }
    }
}

/// The boundary of the simplex `s` as a vector over the basis `c`: at
/// the index of each face, the alternating sign of the deleted position
/// times the sign of the permutation between the stored simplex and the
/// face. `None` when a face is missing from the basis.
pub open spec fn simplex_boundary_spec(s: Seq<usize>, c: Seq<Seq<usize>>) -> Option<Seq<int>> {
    boundary_upto(s, c, s.len() as int)
}

/// The boundary operator from the chains on `c2` to the chains on `c1`:
/// column `j` is the boundary of the `j`-th simplex of `c2`.
pub open spec fn boundary_matrix(c1: Seq<Seq<usize>>, c2: Seq<Seq<usize>>) -> Mat {
    Mat::new(
        c1.len(),
        c2.len(),
        |i: int, j: int| simplex_boundary_spec(c2[j], c1).unwrap()[i],
    )
}

/// Every entry of `m` is -1, 0 or 1.
pub open spec fn is_incidence(m: Mat) -> bool {
    forall|i: int, j: int| m.has(i, j) ==> -1 <= (#[trigger] m.e[i][j]) <= 1
}

/// Where the first basis simplex that is the face `f` stands, and that
/// none stands before it.
pub proof fn lemma_find_face(c: Seq<Seq<usize>>, f: Seq<usize>, i: int)
    requires
        0 <= i <= c.len(),
    ensures
        i <= find_face_from(c, f, i) <= c.len(),
        forall|b: int| i <= b < find_face_from(c, f, i) ==> !same_simplex(#[trigger] c[b], f),
        find_face_from(c, f, i) < c.len() ==> same_simplex(c[find_face_from(c, f, i)], f),
    decreases c.len() - i,
{
    if i < c.len() && !same_simplex(c[i], f) {
        lemma_find_face(c, f, i + 1);
    }
}

/// A boundary exists up to position `n` exactly when the faces opposite
/// the positions before `n` all occur in the basis; it then has one
/// entry for each basis simplex, each of them -1, 0 or 1.
pub proof fn lemma_boundary_upto(s: Seq<usize>, c: Seq<Seq<usize>>, n: int)
    requires
        0 <= n <= s.len(),
    ensures
        boundary_upto(s, c, n) is Some <==> (forall|i: int|
            0 <= i < n ==> face_present(c, #[trigger] face(s, i))),
        boundary_upto(s, c, n) matches Some(v) ==> v.len() == c.len() && forall|x: int|
            0 <= x < v.len() ==> -1 <= #[trigger] v[x] <= 1,
    decreases n,
{
    if n > 0 {
        lemma_boundary_upto(s, c, n - 1);
        let f = face(s, n - 1);
        lemma_find_face(c, f, 0);
        let id = find_face(c, f);
        if id < c.len() {
            assert(same_simplex(c[id], f));
            assert(alternating(n - 1) * perm_sign_spec(c[id], f) == 1 || alternating(n - 1)
                * perm_sign_spec(c[id], f) == -1) by (nonlinear_arith)
                requires
                    alternating(n - 1) == 1 || alternating(n - 1) == -1,
                    perm_sign_spec(c[id], f) == 1 || perm_sign_spec(c[id], f) == -1,
            ;
        } else {
            assert(!face_present(c, face(s, n - 1)));
        }
    }
}

/// A simplex has a boundary in a basis exactly when all its faces occur there.
pub proof fn lemma_boundary_exists(s: Seq<usize>, c: Seq<Seq<usize>>)
    ensures
        simplex_boundary_spec(s, c) is Some <==> faces_present(s, c),
{
    lemma_boundary_upto(s, c, s.len() as int);
}

/// The entries of a boundary operator are incidence coefficients: each
/// is -1, 0 or 1.
pub proof fn lemma_boundary_matrix_entries(c1: Seq<Seq<usize>>, c2: Seq<Seq<usize>>)
    requires
        all_faces_present(c1, c2),
    ensures
        is_incidence(boundary_matrix(c1, c2)),
{
    let m = boundary_matrix(c1, c2);
    assert forall|i: int, j: int| m.has(i, j) implies -1 <= (#[trigger] m.e[i][j]) <= 1 by {
        assert(faces_present(c2[j], c1));
        lemma_boundary_upto(c2[j], c1, c2[j].len() as int);
    }
}

/// Whether `v` occurs in `f`.
fn contains_vertex(f: &Vec<usize>, v: usize) -> (r: bool)
    ensures
        r == f@.contains(v),
{
    let mut i: usize = 0;
    while i < f.len()
        invariant
            i <= f@.len(),
            forall|x: int| 0 <= x < i ==> f@[x] != v,
        decreases f@.len() - i,
    {
        if f[i] == v {
            return true;
        }
        i += 1;
    }
    false
}

/// Whether the basis simplex `b` is the face `f`.
fn is_same_simplex(b: &Vec<usize>, f: &Vec<usize>) -> (r: bool)
    ensures
        r == same_simplex(b@, f@),
{
    if b.len() != f.len() {
        return false;
    }
    let mut i: usize = 0;
    while i < b.len()
        invariant
            i <= b@.len(),
            b@.len() == f@.len(),
            forall|x: int| 0 <= x < i ==> f@.contains(#[trigger] b@[x]),
        decreases b@.len() - i,
    {
        if !contains_vertex(f, b[i]) {
            return false;
        }
        i += 1;
    }
    true
}

/// The face of `s` opposite position `i`.
fn face_of(s: &Vec<usize>, i: usize) -> (f: Vec<usize>)
    requires
        i < s@.len(),
    ensures
        f@ == face(s@, i as int),
{
    let mut f: Vec<usize> = Vec::new();
    let mut j: usize = 0;
    while j < s.len()
        invariant
            j <= s@.len(),
            i < s@.len(),
            f@.len() == (if j <= i { j as int } else { j - 1 }),
            forall|x: int| 0 <= x < f@.len() ==> f@[x] == (if x < i { s@[x] } else { s@[x + 1] }),
        decreases s@.len() - j,
    {
        if j != i {
            f.push(s[j]);
        }
        j += 1;
    }
    assert(f@ =~= face(s@, i as int));
    f
}

/// The index in `c` of the first simplex that is the face `f`.
fn find_face_index(c: &Vec<Vec<usize>>, f: &Vec<usize>) -> (r: Option<usize>)
    ensures
        match r {
            Some(id) => id == find_face(simplices(c@), f@) && id < c@.len(),
            None => find_face(simplices(c@), f@) == c@.len(),
        },
{
    let mut i: usize = 0;
    while i < c.len()
        invariant
            i <= c@.len(),
            find_face(simplices(c@), f@) == find_face_from(simplices(c@), f@, i as int),
        decreases c@.len() - i,
    {
        if is_same_simplex(&c[i], f) {
            return Some(i);
        }
        i += 1;
    }
    None
}

/// The sign of the permutation between the stored simplex `l1` and the
/// face `l2`, which has the same vertices: 1 for an even permutation,
/// -1 for an odd one, 1 for a single vertex.
pub fn perm_sign(l1: &Vec<usize>, l2: &Vec<usize>) -> (r: i128)
    requires
        l1@.len() == l2@.len(),
    ensures
        r == perm_sign_spec(l1@, l2@),
        is_rearrangement(l1@, l2@) && l1@.len() <= 3 ==> r == permutation_sign(l1@, l2@),
{
    proof {
        if is_rearrangement(l1@, l2@) && l1@.len() <= 3 {
            lemma_perm_sign_is_parity(l1@, l2@);
        }
    }
    if l2.len() == 2 {
        if l1[0] == l2[0] {
            1
        } else {
            -1
        }
    } else if l2.len() == 3 {
        let f1: bool = l1[0] == l2[0] && l1[1] == l2[1] && l1[2] == l2[2];
        let f2: bool = l1[0] == l2[1] && l1[1] == l2[2] && l1[2] == l2[0];
        let f3: bool = l1[0] == l2[2] && l1[1] == l2[0] && l1[2] == l2[1];
        if f1 || f2 || f3 {
            1
        } else {
            -1
        }
    } else {
        1
    }
}

/// The boundary of the simplex `s` as a vector over the basis `c`, or
/// `MalformedComplex` when a face of `s` is missing from `c`.
pub fn simplex_boundary(s: &Vec<usize>, c: &Vec<Vec<usize>>) -> (r: Result<
    Vec<i128>,
    HomologyError,
>)
    ensures
        match r {
            Ok(v) => simplex_boundary_spec(s@, simplices(c@)) == Some(
                v@.map_values(|x: i128| x as int),
            ),
            Err(e) => e == HomologyError::MalformedComplex && !faces_present(s@, simplices(c@)),
        },
{
    let ghost cs = simplices(c@);
    let mut b: Vec<i128> = Vec::new();
    let mut x: usize = 0;
    while x < c.len()
        invariant
            x <= c@.len(),
            b@.len() == x,
            forall|y: int| 0 <= y < x ==> b@[y] == 0,
        decreases c@.len() - x,
    {
        b.push(0);
        x += 1;
    }
    assert(b@.map_values(|x: i128| x as int) =~= Seq::new(cs.len(), |i: int| 0int));
    let mut i: usize = 0;
    while i < s.len()
        invariant
            cs == simplices(c@),
            i <= s@.len(),
            b@.len() == c@.len(),
            boundary_upto(s@, cs, i as int) == Some(b@.map_values(|x: i128| x as int)),
        decreases s@.len() - i,
    {
        let sb = face_of(s, i);
        let ghost before = b@.map_values(|x: i128| x as int);
        match find_face_index(c, &sb) {
            None => {
                proof {
                    lemma_boundary_exists(s@, cs);
                    lemma_boundary_upto(s@, cs, i + 1);
                }
                return Err(HomologyError::MalformedComplex);
            },
            Some(id) => {
                proof {
                    lemma_find_face(cs, sb@, 0);
                }
                let alt: i128 = if i % 2 == 0 {
                    1
                } else {
                    -1
                };
                let ps: i128 = perm_sign(&c[id], &sb);
                proof {
                    assert(alt * ps == 1 || alt * ps == -1) by (nonlinear_arith)
                        requires
                            alt == 1 || alt == -1,
                            ps == 1 || ps == -1,
                    ;
                }
                let v: i128 = alt * ps;
                b.set(id, v);
                proof {
                    assert(b@.map_values(|x: i128| x as int) =~= before.update(
                        id as int,
                        v as int,
                    ));
                }
            },
        }
        i += 1;
    }
    Ok(b)
}

/// The values of a vector of `i128`s as integers.
pub open spec fn coefficients(v: Vec<i128>) -> Seq<int> {
    v@.map_values(|x: i128| x as int)
}

/// The boundaries of the simplices of `c2` over the basis `c1`, one
/// vector for each simplex, or `MalformedComplex` when a face of one of
/// them is missing from `c1`.
fn boundary_columns(c1: &Vec<Vec<usize>>, c2: &Vec<Vec<usize>>) -> (r: Result<
    Vec<Vec<i128>>,
    HomologyError,
>)
    ensures
        match r {
            Ok(cols) => {
                &&& all_faces_present(simplices(c1@), simplices(c2@))
                &&& cols@.len() == c2@.len()
                &&& forall|j: int|
                    0 <= j < c2@.len() ==> simplex_boundary_spec(c2@[j]@, simplices(c1@)) == Some(
                        coefficients(#[trigger] cols@[j]),
                    )
            },
            Err(e) => e == HomologyError::MalformedComplex && !all_faces_present(
                simplices(c1@),
                simplices(c2@),
            ),
        },
{
    let ghost cs1 = simplices(c1@);
    let ghost cs2 = simplices(c2@);
    let mut cols: Vec<Vec<i128>> = Vec::new();
    let mut j: usize = 0;
    while j < c2.len()
        invariant
            cs1 == simplices(c1@),
            cs2 == simplices(c2@),
            j <= c2@.len(),
            cols@.len() == j,
            forall|y: int| 0 <= y < j ==> faces_present(#[trigger] cs2[y], cs1),
            forall|y: int|
                0 <= y < j ==> simplex_boundary_spec(c2@[y]@, cs1) == Some(
                    coefficients(#[trigger] cols@[y]),
                ),
        decreases c2@.len() - j,
    {
        match simplex_boundary(&c2[j], c1) {
            Ok(v) => {
                proof {
                    lemma_boundary_exists(c2@[j as int]@, cs1);
                }
                cols.push(v);
            },
            Err(e) => {
                assert(!faces_present(cs2[j as int], cs1));
                return Err(e);
            },
        }
        j += 1;
    }
    Ok(cols)
}

/// The matrix with the given columns, each of `nrows` entries, or
/// `Overflow` when that many entries cannot be stored.
fn matrix_of_columns(cols: &Vec<Vec<i128>>, nrows: usize) -> (r: Result<IntMatrix, HomologyError>)
    requires
        forall|j: int| 0 <= j < cols@.len() ==> (#[trigger] cols@[j])@.len() == nrows,
    ensures
        match r {
            Ok(m) => m@ == Mat::new(
                nrows as nat,
                cols@.len(),
                |i: int, j: int| cols@[j]@[i] as int,
            ) && nrows * cols@.len() <= usize::MAX,
            Err(e) => e == HomologyError::Overflow && nrows * cols@.len() > usize::MAX,
        },
{
    let nc: usize = cols.len();
    if nrows.checked_mul(nc).is_none() {
        return Err(HomologyError::Overflow);
    }
    let mut m = IntMatrix::zeros(nrows, nc);
    let mut j: usize = 0;
    while j < nc
        invariant
            nc == cols@.len(),
            j <= nc,
            m@.rows == nrows,
            m@.cols == nc,
            forall|y: int| 0 <= y < cols@.len() ==> (#[trigger] cols@[y])@.len() == nrows,
            forall|x: int, y: int|
                m@.has(x, y) ==> #[trigger] m@.e[x][y] == (if y < j {
                    cols@[y]@[x] as int
                } else {
                    0
                }),
        decreases nc - j,
    {
        let mut i: usize = 0;
        while i < nrows
            invariant
                nc == cols@.len(),
                j < nc,
                i <= nrows,
                m@.rows == nrows,
                m@.cols == nc,
                forall|y: int| 0 <= y < cols@.len() ==> (#[trigger] cols@[y])@.len() == nrows,
                forall|x: int, y: int|
                    m@.has(x, y) ==> #[trigger] m@.e[x][y] == (if y < j || (y == j && x < i) {
                        cols@[y]@[x] as int
                    } else {
                        0
                    }),
            decreases nrows - i,
        {
            let v: i128 = cols[j][i];
            m.set(i, j, v);
            i += 1;
        }
        j += 1;
    }
    assert(m@ =~~= Mat::new(nrows as nat, cols@.len(), |i: int, j: int| cols@[j]@[i] as int));
    Ok(m)
}

/// The boundary operator from the chains on `c2` to the chains on `c1`:
/// one row for each simplex of `c1`, one column for each simplex of
/// `c2`, the column being the boundary of that simplex.
///
/// Fails with `MalformedComplex` exactly when some face of a simplex of
/// `c2` is missing from `c1`, and otherwise with `Overflow` exactly when
/// the matrix has more entries than a `usize` can count.
pub fn calc_boundary_operator(c1: &Vec<Vec<usize>>, c2: &Vec<Vec<usize>>) -> (r: Result<
    IntMatrix,
    HomologyError,
>)
    ensures
        match r {
            Ok(m) => all_faces_present(simplices(c1@), simplices(c2@)) && m@ == boundary_matrix(
                simplices(c1@),
                simplices(c2@),
            ) && is_incidence(m@) && c1@.len() * c2@.len() <= usize::MAX,
            Err(e) => if all_faces_present(simplices(c1@), simplices(c2@)) {
                e == HomologyError::Overflow && c1@.len() * c2@.len() > usize::MAX
            } else {
                e == HomologyError::MalformedComplex
            },
        },
{
    let cols = boundary_columns(c1, c2)?;
    proof {
        lemma_boundary_matrix_entries(simplices(c1@), simplices(c2@));
    }
    columns_as_operator(c1, c2, &cols)
}

/// Lays the boundaries of the simplices of `c2` out as the columns of
/// the boundary operator.
fn columns_as_operator(c1: &Vec<Vec<usize>>, c2: &Vec<Vec<usize>>, cols: &Vec<Vec<i128>>) -> (r:
    Result<IntMatrix, HomologyError>)
    requires
        cols@.len() == c2@.len(),
        forall|j: int|
            0 <= j < c2@.len() ==> simplex_boundary_spec(c2@[j]@, simplices(c1@)) == Some(
                coefficients(#[trigger] cols@[j]),
            ),
    ensures
        match r {
            Ok(m) => m@ == boundary_matrix(simplices(c1@), simplices(c2@)) && c1@.len()
                * c2@.len() <= usize::MAX,
            Err(e) => e == HomologyError::Overflow && c1@.len() * c2@.len() > usize::MAX,
        },
{
    let ghost cs1 = simplices(c1@);
    let ghost cs2 = simplices(c2@);
    proof {
        assert forall|j: int| 0 <= j < cols@.len() implies (#[trigger] cols@[j])@.len()
            == c1@.len() by {
            lemma_boundary_upto(c2@[j]@, cs1, c2@[j]@.len() as int);
        }
    }
    let m = matrix_of_columns(cols, c1.len())?;
    proof {
        let want = boundary_matrix(cs1, cs2);
        assert forall|x: int, y: int| want.has(x, y) implies #[trigger] m@.e[x][y]
            == want.e[x][y] by {
            lemma_boundary_upto(c2@[y]@, cs1, c2@[y]@.len() as int);
            assert(coefficients(cols@[y])[x] == cols@[y]@[x]);
        }
        assert(m@ =~~= want);
    }
    Ok(m)
}

/// The four boundary operators of a complex: the zero map out of the
/// vertices into a group with a single row, the operators from edges to
/// vertices and from faces to edges, and the empty operator into the
/// faces.
///
/// Fails with `MalformedComplex` exactly when the complex is not closed
/// under taking faces, and otherwise with `Overflow` exactly when an
/// operator has more entries than a `usize` can count.
pub fn calc_boundary_operators(c: &SimplicalComplex) -> (r: Result<
    (IntMatrix, IntMatrix, IntMatrix, IntMatrix),
    HomologyError,
>)
    ensures
        match r {
            Ok((d0, d1, d2, d3)) => {
                &&& well_formed(*c)
                &&& d0@ == Mat::zeros(1, c.verts@.len())
                &&& d1@ == boundary_matrix(simplices(c.verts@), simplices(c.edges@))
                &&& d2@ == boundary_matrix(simplices(c.edges@), simplices(c.faces@))
                &&& d3@ == Mat::zeros(0, 0)
                &&& is_incidence(d1@)
                &&& is_incidence(d2@)
                &&& c.verts@.len() * c.edges@.len() <= usize::MAX
                &&& c.edges@.len() * c.faces@.len() <= usize::MAX
            },
            Err(e) => if well_formed(*c) {
                e == HomologyError::Overflow && (c.verts@.len() * c.edges@.len() > usize::MAX
                    || c.edges@.len() * c.faces@.len() > usize::MAX)
            } else {
                e == HomologyError::MalformedComplex
            },
        },
{
    let cols1 = boundary_columns(&c.verts, &c.edges)?;
    let cols2 = boundary_columns(&c.edges, &c.faces)?;
    proof {
        lemma_boundary_matrix_entries(simplices(c.verts@), simplices(c.edges@));
        lemma_boundary_matrix_entries(simplices(c.edges@), simplices(c.faces@));
    }
    let d1 = columns_as_operator(&c.verts, &c.edges, &cols1)?;
    let d2 = columns_as_operator(&c.edges, &c.faces, &cols2)?;
    let d0 = IntMatrix::zeros(1, c.verts.len());
    let d3 = IntMatrix::zeros(0, 0);
    Ok((d0, d1, d2, d3))
}

} // verus!
