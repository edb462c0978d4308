//! The boundary of a boundary vanishes: composing two consecutive
//! boundary operators of a complex gives the zero map.

use vstd::prelude::*;
use crate::boundary::{
    all_faces_present, alternating, boundary_matrix, boundary_upto, face, face_present,
    faces_present, find_face, lemma_boundary_upto, lemma_find_face, perm_sign_spec, same_simplex,
    simplex_boundary_spec, simplices, well_formed, SimplicalComplex,
};
use crate::linear::{dot, lemma_dot_change_right, lemma_dot_zero};
use crate::matrix::Mat;

verus! {

/// Every simplex of the list is an edge: two vertices, not the same.
pub open spec fn proper_edges(edges: Seq<Seq<usize>>) -> bool {
    forall|e: int|
        0 <= e < edges.len() ==> (#[trigger] edges[e]).len() == 2 && edges[e][0] != edges[e][1]
}

/// 1 when `i` is `at`, 0 otherwise.
pub open spec fn indicator(i: int, at: int) -> int {
    if i == at {
        1
    } else {
        0
    }
}

/// The index of the vertex `v` in a list of vertices.
pub open spec fn vertex_index(verts: Seq<Seq<usize>>, v: usize) -> int {
    find_face(verts, seq![v])
}

/// The boundary of an edge from `x` to `y` is the vertex `y` minus the
/// vertex `x`.
pub proof fn lemma_edge_boundary(verts: Seq<Seq<usize>>, edge: Seq<usize>, iv: int)
    requires
        edge.len() == 2,
        edge[0] != edge[1],
        faces_present(edge, verts),
        0 <= iv < verts.len(),
    ensures
        simplex_boundary_spec(edge, verts) is Some,
        simplex_boundary_spec(edge, verts).unwrap()[iv] == indicator(
            iv,
            vertex_index(verts, edge[1]),
        ) - indicator(iv, vertex_index(verts, edge[0])),
{
    let x = edge[0];
    let y = edge[1];
    assert(face(edge, 0) =~= seq![y]);
    assert(face(edge, 1) =~= seq![x]);
    lemma_boundary_upto(edge, verts, 2);
    lemma_boundary_upto(edge, verts, 1);
    lemma_find_face(verts, seq![y], 0);
    lemma_find_face(verts, seq![x], 0);
    let iy = vertex_index(verts, y);
    let ix = vertex_index(verts, x);
    lemma_present_found(verts, face(edge, 0));
    lemma_present_found(verts, face(edge, 1));
    assert(same_simplex(verts[iy], seq![y]));
    assert(same_simplex(verts[ix], seq![x]));
    assert(seq![y].contains(verts[iy][0]));
    assert(seq![x].contains(verts[ix][0]));
    assert(verts[iy][0] == y);
    assert(verts[ix][0] == x);
    assert(ix != iy);
    reveal_with_fuel(boundary_upto, 3);
    let v0 = Seq::new(verts.len(), |i: int| 0int);
    let v1 = v0.update(iy, alternating(0) * perm_sign_spec(verts[iy], seq![y]));
    let v2 = v1.update(ix, alternating(1) * perm_sign_spec(verts[ix], seq![x]));
    assert(boundary_upto(edge, verts, 0) == Some(v0));
    assert(boundary_upto(edge, verts, 1) == Some(v1));
    assert(boundary_upto(edge, verts, 2) == Some(v2));
    assert(1 * 1 == 1);
    assert((-1) * 1 == -1);
}

/// A face that occurs in a list is found by the search for it.
pub proof fn lemma_present_found(c: Seq<Seq<usize>>, f: Seq<usize>)
    requires
        face_present(c, f),
    ensures
        0 <= find_face(c, f) < c.len(),
        same_simplex(c[find_face(c, f)], f),
{
    lemma_find_face(c, f, 0);
    let b = choose|b: int| 0 <= b < c.len() && same_simplex(#[trigger] c[b], f);
    if find_face(c, f) >= c.len() {
        assert(!same_simplex(c[b], f));
    }
}

/// An edge of the list that is the pair `x`, `y`, taken with the sign
/// of its stored order against that pair, has the boundary `y - x`.
pub proof fn lemma_oriented_edge(
    verts: Seq<Seq<usize>>,
    edges: Seq<Seq<usize>>,
    x: usize,
    y: usize,
    iv: int,
)
    requires
        proper_edges(edges),
        all_faces_present(verts, edges),
        x != y,
        face_present(edges, seq![x, y]),
        0 <= iv < verts.len(),
    ensures
        ({
            let e = find_face(edges, seq![x, y]);
            &&& 0 <= e < edges.len()
            &&& simplex_boundary_spec(edges[e], verts) is Some
            &&& perm_sign_spec(edges[e], seq![x, y]) * simplex_boundary_spec(
                edges[e],
                verts,
            ).unwrap()[iv] == indicator(iv, vertex_index(verts, y)) - indicator(
                iv,
                vertex_index(verts, x),
            )
            &&& edges[e].contains(x)
            &&& edges[e].contains(y)
        }),
{
    let f = seq![x, y];
    lemma_present_found(edges, f);
    let e = find_face(edges, f);
    let edge = edges[e];
    assert(edge.len() == 2 && edge[0] != edge[1]);
    assert(f.contains(edge[0]));
    assert(f.contains(edge[1]));
    assert(faces_present(edges[e], verts));
    lemma_edge_boundary(verts, edge, iv);
    let b = simplex_boundary_spec(edge, verts).unwrap()[iv];
    if edge[0] == x {
        assert(edge[1] == y);
        assert(perm_sign_spec(edge, f) == 1);
        assert(1 * b == b);
    } else {
        assert(edge[0] == y);
        assert(edge[1] == x);
        assert(perm_sign_spec(edge, f) == -1);
        assert((-1) * b == -b);
    }
    assert(edge[0] == x || edge[1] == x);
    assert(edge[0] == y || edge[1] == y);
}

/// Two pairs of vertices that are found at the same edge have the same
/// two vertices.
proof fn lemma_distinct_edges(edges: Seq<Seq<usize>>, a: usize, b: usize, c: usize, d: usize)
    requires
        proper_edges(edges),
        face_present(edges, seq![a, b]),
        face_present(edges, seq![c, d]),
        find_face(edges, seq![a, b]) == find_face(edges, seq![c, d]),
    ensures
        (a == c || a == d) || (b == c || b == d),
        a != b ==> (a == c || a == d) && (b == c || b == d),
{
    lemma_present_found(edges, seq![a, b]);
    lemma_present_found(edges, seq![c, d]);
    let e = find_face(edges, seq![a, b]);
    let edge = edges[e];
    assert(seq![a, b].contains(edge[0]));
    assert(seq![a, b].contains(edge[1]));
    assert(seq![c, d].contains(edge[0]));
    assert(seq![c, d].contains(edge[1]));
}

/// The boundary of a triangle, applied to by the boundary operator of
/// the edges, gives zero at every vertex.
proof fn lemma_triangle_column(
    verts: Seq<Seq<usize>>,
    edges: Seq<Seq<usize>>,
    s: Seq<usize>,
    u: Seq<int>,
    iv: int,
)
    requires
        proper_edges(edges),
        all_faces_present(verts, edges),
        faces_present(s, edges),
        s.len() == 3,
        0 <= iv < verts.len(),
        u.len() == edges.len(),
        forall|e: int|
            0 <= e < edges.len() ==> (#[trigger] u[e]) == simplex_boundary_spec(
                edges[e],
                verts,
            ).unwrap()[iv],
    ensures
        simplex_boundary_spec(s, edges) is Some,
        dot(u, simplex_boundary_spec(s, edges).unwrap(), edges.len()) == 0,
{
    let (a, b, c) = (s[0], s[1], s[2]);
    let f0 = seq![b, c];
    let f1 = seq![a, c];
    let f2 = seq![a, b];
    assert(face(s, 0) =~= f0);
    assert(face(s, 1) =~= f1);
    assert(face(s, 2) =~= f2);
    assert(face_present(edges, face(s, 0)));
    assert(face_present(edges, face(s, 1)));
    assert(face_present(edges, face(s, 2)));
    lemma_present_found(edges, f0);
    lemma_present_found(edges, f1);
    lemma_present_found(edges, f2);
    let e0 = find_face(edges, f0);
    let e1 = find_face(edges, f1);
    let e2 = find_face(edges, f2);
    // A side with both ends at the same vertex is no edge.
    assert(b != c) by {
        if b == c {
            assert(f0.contains(edges[e0][0]));
            assert(f0.contains(edges[e0][1]));
        }
    }
    assert(a != c) by {
        if a == c {
            assert(f1.contains(edges[e1][0]));
            assert(f1.contains(edges[e1][1]));
        }
    }
    assert(a != b) by {
        if a == b {
            assert(f2.contains(edges[e2][0]));
            assert(f2.contains(edges[e2][1]));
        }
    }
    assert(e0 != e1) by {
        if e0 == e1 {
            lemma_distinct_edges(edges, b, c, a, c);
        }
    }
    assert(e0 != e2) by {
        if e0 == e2 {
            lemma_distinct_edges(edges, b, c, a, b);
        }
    }
    assert(e1 != e2) by {
        if e1 == e2 {
            lemma_distinct_edges(edges, a, c, a, b);
        }
    }
    lemma_oriented_edge(verts, edges, b, c, iv);
    lemma_oriented_edge(verts, edges, a, c, iv);
    lemma_oriented_edge(verts, edges, a, b, iv);
    let p0 = perm_sign_spec(edges[e0], f0);
    let p1 = perm_sign_spec(edges[e1], f1);
    let p2 = perm_sign_spec(edges[e2], f2);
    let n = edges.len();
    let v0 = Seq::new(n, |i: int| 0int);
    let v1 = v0.update(e0, alternating(0) * p0);
    let v2 = v1.update(e1, alternating(1) * p1);
    let v3 = v2.update(e2, alternating(2) * p2);
    reveal_with_fuel(boundary_upto, 4);
    assert(boundary_upto(s, edges, 0) == Some(v0));
    assert(boundary_upto(s, edges, 1) == Some(v1));
    assert(boundary_upto(s, edges, 2) == Some(v2));
    assert(boundary_upto(s, edges, 3) == Some(v3));
    lemma_dot_zero(u, v0, n);
    lemma_dot_change_right(u, v0, v1, e0, n);
    lemma_dot_change_right(u, v1, v2, e1, n);
    lemma_dot_change_right(u, v2, v3, e2, n);
    assert(1 * p0 == p0);
    assert((-1) * p1 == -p1);
    assert(1 * p2 == p2);
    assert(u[e0] * (p0 - 0) == p0 * u[e0]) by (nonlinear_arith);
    assert(u[e1] * (-p1 - 0) == -(p1 * u[e1])) by (nonlinear_arith);
    assert(u[e2] * (p2 - 0) == p2 * u[e2]) by (nonlinear_arith);
}

/// The boundary of a boundary vanishes: in a complex that is closed
/// under taking faces and whose edges are proper, the boundary operator
/// of the edges times the boundary operator of the faces is the zero
/// matrix.
pub proof fn lemma_boundary_of_boundary(
    verts: Seq<Seq<usize>>,
    edges: Seq<Seq<usize>>,
    faces: Seq<Seq<usize>>,
)
    requires
        proper_edges(edges),
        all_faces_present(verts, edges),
        all_faces_present(edges, faces),
    ensures
        boundary_matrix(verts, edges).mul(boundary_matrix(edges, faces)).is_zero(),
{
    let d1 = boundary_matrix(verts, edges);
    let d2 = boundary_matrix(edges, faces);
    let m = d1.mul(d2);
    assert forall|iv: int, jf: int| m.has(iv, jf) implies (#[trigger] m.e[iv][jf]) == 0 by {
        let s = faces[jf];
        let u = d1.e[iv];
        let col = d2.col(jf);
        assert(faces_present(s, edges));
        lemma_boundary_upto(s, edges, s.len() as int);
        let v = simplex_boundary_spec(s, edges).unwrap();
        assert(col =~= v);
        if s.len() == 0 {
            lemma_dot_zero(u, v, edges.len());
        } else {
            assert(face_present(edges, face(s, 0)));
            lemma_present_found(edges, face(s, 0));
            assert(face(s, 0).len() == s.len() - 1);
            assert(edges[find_face(edges, face(s, 0))].len() == 2);
            lemma_triangle_column(verts, edges, s, u, iv);
        }
    }
}

/// The zero map out of the vertices composes to zero with the boundary
/// operator of the edges.
pub proof fn lemma_zero_operator_composes(n: nat, d: Mat)
    requires
        d.rows == n,
    ensures
        Mat::zeros(1, n).mul(d).is_zero(),
{
    let z = Mat::zeros(1, n);
    let m = z.mul(d);
    assert forall|i: int, j: int| m.has(i, j) implies (#[trigger] m.e[i][j]) == 0 by {
        crate::linear::lemma_dot_linear_left(z.e[i], z.e[i], z.e[i], d.col(j), 0, 0, n);
    }
}

/// The boundary of a boundary vanishes in every dimension: for a
/// complex that is closed under taking faces and whose edges are
/// proper, each two consecutive boundary operators compose to zero.
pub proof fn lemma_complex_boundaries_compose(sc: SimplicalComplex)
    requires
        well_formed(sc),
        proper_edges(simplices(sc.edges@)),
    ensures
        ({
            let d0 = Mat::zeros(1, sc.verts@.len());
            let d1 = boundary_matrix(simplices(sc.verts@), simplices(sc.edges@));
            let d2 = boundary_matrix(simplices(sc.edges@), simplices(sc.faces@));
            let d3 = Mat::zeros(0, 0);
            &&& d0.mul(d1).is_zero()
            &&& d1.mul(d2).is_zero()
            &&& d2.mul(d3).is_zero()
        }),
{
    let d1 = boundary_matrix(simplices(sc.verts@), simplices(sc.edges@));
    lemma_zero_operator_composes(sc.verts@.len(), d1);
    lemma_boundary_of_boundary(
        simplices(sc.verts@),
        simplices(sc.edges@),
        simplices(sc.faces@),
    );
}

} // verus!
