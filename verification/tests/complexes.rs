use simplicial_homology::boundary::{
    calc_boundary_operator, calc_boundary_operators, perm_sign, simplex_boundary, SimplicalComplex,
};
use simplicial_homology::error::HomologyError;
use simplicial_homology::homology::{
    calc_cohomology, calc_homology, calc_homology_groups, cohomology_from, match_generators,
};
use simplicial_homology::homology_group::{calc_homology_group_list, Summand};
use simplicial_homology::matrix::IntMatrix;
use simplicial_homology::reduce::{col_r, col_r_same_tor, np_map, pivot_of};
use simplicial_homology::snf::smith_normalize;

fn grid(rows: &[Vec<i128>]) -> IntMatrix {
    let nr = rows.len();
    let nc = if nr == 0 { 0 } else { rows[0].len() };
    let mut data: Vec<i128> = Vec::new();
    for r in rows {
        for v in r {
            data.push(*v);
        }
    }
    IntMatrix::from_row_slice(nr, nc, &data)
}

fn times(a: &IntMatrix, b: &IntMatrix) -> IntMatrix {
    assert_eq!(a.ncols(), b.nrows());
    let mut m = IntMatrix::zeros(a.nrows(), b.ncols());
    for i in 0..a.nrows() {
        for j in 0..b.ncols() {
            let mut s: i128 = 0;
            for l in 0..a.ncols() {
                s += a.get(i, l) * b.get(l, j);
            }
            m.set(i, j, s);
        }
    }
    m
}

fn column_text(m: &IntMatrix, j: usize) -> String {
    let mut s = String::new();
    for i in 0..m.nrows() {
        s.push_str(&format!("{} ", m.get(i, j)));
    }
    s
}

fn transposed_text(m: &IntMatrix) -> String {
    let mut s = String::new();
    for j in 0..m.ncols() {
        s.push_str(&column_text(m, j));
        s.push('\n');
    }
    s
}

fn nine_vertices() -> Vec<Vec<usize>> {
    vec![vec![0], vec![1], vec![2], vec![3], vec![4], vec![5], vec![6], vec![7], vec![8]]
}

fn triangle() -> SimplicalComplex {
    SimplicalComplex {
        verts: vec![vec![0], vec![1], vec![2]],
        edges: vec![vec![0, 1], vec![1, 2], vec![2, 0]],
        faces: vec![vec![0, 1, 2]],
    }
}

fn tetrahedron() -> SimplicalComplex {
    SimplicalComplex {
        verts: vec![vec![0], vec![1], vec![2], vec![3]],
        edges: vec![vec![0, 1], vec![0, 2], vec![0, 3], vec![1, 2], vec![1, 3], vec![2, 3]],
        faces: vec![vec![0, 1, 2], vec![0, 1, 3], vec![0, 2, 3], vec![1, 2, 3]],
    }
}

fn torus() -> SimplicalComplex {
    SimplicalComplex {
        verts: nine_vertices(),
        edges: vec![
            vec![0, 1], vec![0, 2], vec![0, 3],
            vec![0, 4], vec![0, 6], vec![0, 7],
            vec![1, 2], vec![1, 4], vec![1, 5],
            vec![1, 7], vec![1, 8], vec![2, 3],
            vec![2, 5], vec![2, 6], vec![2, 8],
            vec![3, 4], vec![3, 5], vec![3, 7],
            vec![3, 8], vec![4, 5], vec![4, 6],
            vec![4, 8], vec![5, 6], vec![5, 7],
            vec![6, 7], vec![6, 8], vec![7, 8],
        ],
        faces: vec![
            vec![0, 1, 4], vec![1, 4, 5], vec![1, 2, 5],
            vec![2, 5, 6], vec![0, 6, 2], vec![0, 6, 4],
            vec![3, 4, 5], vec![3, 7, 5], vec![5, 6, 7],
            vec![6, 7, 8], vec![4, 8, 6], vec![3, 4, 8],
            vec![0, 3, 7], vec![0, 1, 7], vec![1, 7, 8],
            vec![1, 2, 8], vec![2, 8, 3], vec![0, 3, 2],
        ],
    }
}

fn klein_bottle() -> SimplicalComplex {
    SimplicalComplex {
        verts: nine_vertices(),
        edges: vec![
            vec![0, 1], vec![0, 2], vec![0, 3],
            vec![0, 4], vec![0, 6], vec![0, 7],
            vec![1, 2], vec![1, 5], vec![1, 6],
            vec![1, 7], vec![1, 8], vec![2, 3],
            vec![2, 4], vec![2, 5], vec![2, 8],
            vec![3, 4], vec![3, 5], vec![3, 7],
            vec![3, 8], vec![4, 5], vec![4, 6],
            vec![4, 8], vec![5, 6], vec![5, 7],
            vec![6, 7], vec![6, 8], vec![7, 8],
        ],
        faces: vec![
            vec![0, 4, 2], vec![2, 4, 5], vec![1, 2, 5],
            vec![1, 5, 6], vec![0, 1, 6], vec![0, 6, 4],
            vec![3, 5, 4], vec![3, 7, 5], vec![5, 7, 6],
            vec![6, 7, 8], vec![4, 6, 8], vec![3, 4, 8],
            vec![0, 7, 3], vec![0, 1, 7], vec![1, 8, 7],
            vec![1, 2, 8], vec![2, 3, 8], vec![0, 3, 2],
        ],
    }
}

fn orders(sc: SimplicalComplex) -> Vec<Vec<i128>> {
    calc_homology_groups(sc).unwrap().into_iter().map(|g| g.1).collect()
}

// A record is sound when every generator is a cycle and there are as
// many orders as generators.
fn check_records(sc: SimplicalComplex, copy: SimplicalComplex) {
    let (d0, d1, d2, _) = calc_boundary_operators(&copy).unwrap();
    let groups = calc_homology_groups(sc).unwrap();
    assert_eq!(groups.len(), 3);
    let leaving = [d0, d1, d2];
    for k in 0..3 {
        let (g, o) = &groups[k];
        assert_eq!(g.ncols(), o.len());
        assert_eq!(g.nrows(), leaving[k].ncols());
        let image = times(&leaving[k], g);
        for i in 0..image.nrows() {
            for j in 0..image.ncols() {
                assert_eq!(image.get(i, j), 0);
            }
        }
        for t in o {
            assert!(*t >= 1);
        }
    }
}

#[test]
fn test_torus() {
    let sc = SimplicalComplex {
        verts: vec![
            vec![0], vec![1], vec![2],
            vec![3], vec![4], vec![5],
            vec![6], vec![7], vec![8],
            ],
        edges: vec![
            vec![0, 1], vec![0, 2], vec![0, 3],
            vec![0, 4], vec![0, 6], vec![0, 7],
            vec![1, 2], vec![1, 4], vec![1, 5],
            vec![1, 7], vec![1, 8], vec![2, 3],
            vec![2, 5], vec![2, 6], vec![2, 8],
            vec![3, 4], vec![3, 5], vec![3, 7],
            vec![3, 8], vec![4, 5], vec![4, 6],
            vec![4, 8], vec![5, 6], vec![5, 7],
            vec![6, 7], vec![6, 8], vec![7, 8],
            ],
        faces: vec![
            vec![0, 1, 4], vec![1, 4, 5], vec![1, 2, 5],
            vec![2, 5, 6], vec![0, 6, 2], vec![0, 6, 4],
            vec![3, 4, 5], vec![3, 7, 5], vec![5, 6, 7],
            vec![6, 7, 8], vec![4, 8, 6], vec![3, 4, 8],
            vec![0, 3, 7], vec![0, 1, 7], vec![1, 7, 8],
            vec![1, 2, 8], vec![2, 8, 3], vec![0, 3, 2]
        ],
    };

    let res = calc_homology_groups(sc).unwrap();
    let res_1st = &res[0];
    let res_2nd = &res[1];
    println!("z1_base1: {}", transposed_text(&res_1st.0));
    println!("torsion_1: ");
    for r in res_1st.1.iter() { println!("{}, ", r); }
    println!("\n");
    println!("z2_base1: {}", column_text(&res_2nd.0, 0));
    println!("z2_base2: {}", column_text(&res_2nd.0, 1));
    println!("torsion_2: ");
    for r in res_2nd.1.iter() { println!("{}, ", r); }
    println!("\n");
}

#[test]
fn test_klein() {
    let sc = SimplicalComplex {
        verts: vec![
            vec![0], vec![1], vec![2],
            vec![3], vec![4], vec![5],
            vec![6], vec![7], vec![8],
            ],
        edges: vec![
            vec![0, 1], vec![0, 2], vec![0, 3],
            vec![0, 4], vec![0, 6], vec![0, 7],
            vec![1, 2], vec![1, 5], vec![1, 6],
            vec![1, 7], vec![1, 8], vec![2, 3],
            vec![2, 4], vec![2, 5], vec![2, 8],
            vec![3, 4], vec![3, 5], vec![3, 7],
            vec![3, 8], vec![4, 5], vec![4, 6],
            vec![4, 8], vec![5, 6], vec![5, 7],
            vec![6, 7], vec![6, 8], vec![7, 8],
            ],
        faces: vec![
            vec![0, 4, 2], vec![2, 4, 5], vec![1, 2, 5],
            vec![1, 5, 6], vec![0, 1, 6], vec![0, 6, 4],
            vec![3, 5, 4], vec![3, 7, 5], vec![5, 7, 6],
            vec![6, 7, 8], vec![4, 6, 8], vec![3, 4, 8],
            vec![0, 7, 3], vec![0, 1, 7], vec![1, 8, 7],
            vec![1, 2, 8], vec![2, 3, 8], vec![0, 3, 2]
        ],
    };

    let res = calc_homology_groups(sc).unwrap();
    let res_1st = &res[0];
    let res_2nd = &res[1];
    println!("z1_base1: {}", transposed_text(&res_1st.0));
    println!("torsion_1: ");
    for r in res_1st.1.iter() { println!("{}, ", r); }
    println!("\n");
    println!("z2_base1: {}", column_text(&res_2nd.0, 0));
    println!("z2_base2: {}", column_text(&res_2nd.0, 1));
    println!("torsion_2: ");
    for r in res_2nd.1.iter() { println!("{}, ", r); }
    println!("\n");
}

#[test]
fn test() {
    let sc = SimplicalComplex{
        verts: vec![vec![0], vec![1], vec![2]],
        edges: vec![vec![0, 1], vec![1, 2], vec![2, 0]],
        faces: vec![vec![0, 1, 2]],
    };
    let _ = calc_homology_group_list(sc);
}

#[test]
fn test_2() {
    let sc = SimplicalComplex{
        verts: vec![vec![0], vec![1], vec![2], vec![3]],
        edges: vec![
            vec![0, 1], vec![0, 2], vec![0, 3],
            vec![1, 2], vec![1, 3], vec![2, 3],
            ],
        faces: vec![vec![0, 1, 2], vec![0, 1, 3], vec![0, 2, 3], vec![1, 2, 3]],
    };
    let _ = calc_homology_group_list(sc);
}

fn torus_without_an_edge() -> SimplicalComplex {
    SimplicalComplex{
        verts: vec![
            vec![0],
            vec![1],
            vec![2],
            vec![3],
            vec![4],
            vec![5],
            vec![6],
            vec![7],
            vec![8],
            ],
        edges: vec![
            vec![0, 1],
            vec![0, 2],
            vec![0, 3],
            vec![0, 4],
            vec![0, 6],
            vec![0, 7],
            vec![1, 2],
            vec![1, 4],
            vec![1, 5],
            vec![1, 7],
            vec![2, 3],
            vec![2, 5],
            vec![2, 6],
            vec![2, 8],
            vec![3, 4],
            vec![3, 5],
            vec![3, 7],
            vec![3, 8],
            vec![4, 5],
            vec![4, 6],
            vec![4, 8],
            vec![5, 6],
            vec![5, 7],
            vec![6, 7],
            vec![6, 8],
            vec![7, 8],
            ],
        faces: vec![
            vec![0, 1, 4],
            vec![1, 4, 5],
            vec![1, 2, 5],
            vec![2, 5, 6],
            vec![0, 6, 2],
            vec![0, 6, 4],
            vec![3, 4, 5],
            vec![3, 7, 5],
            vec![5, 6, 7],
            vec![6, 7, 8],
            vec![4, 8, 6],
            vec![3, 4, 8],
            vec![0, 3, 7],
            vec![0, 1, 7],
            vec![1, 7, 8],
            vec![1, 2, 8],
            vec![2, 8, 3],
            vec![0, 3, 2]
        ],
    }
}

#[test]
fn test_3() {
    let sc = torus_without_an_edge();
    let _ = calc_homology_group_list(sc);
}

fn klein_bottle_without_an_edge() -> SimplicalComplex {
    SimplicalComplex{
        verts: vec![
            vec![0],
            vec![1],
            vec![2],
            vec![3],
            vec![4],
            vec![5],
            vec![6],
            vec![7],
            vec![8],
            ],
        edges: vec![
            vec![0, 1],
            vec![0, 2],
            vec![0, 3],
            vec![0, 4],
            vec![0, 6],
            vec![0, 7],
            vec![1, 2],
            vec![1, 5],
            vec![1, 6],
            vec![1, 7],
            vec![2, 3],
            vec![2, 4],
            vec![2, 5],
            vec![2, 8],
            vec![3, 4],
            vec![3, 5],
            vec![3, 7],
            vec![3, 8],
            vec![4, 5],
            vec![4, 6],
            vec![4, 8],
            vec![5, 6],
            vec![5, 7],
            vec![6, 7],
            vec![6, 8],
            vec![7, 8],
            ],
        faces: vec![
            vec![0, 4, 2],
            vec![2, 4, 5],
            vec![1, 2, 5],
            vec![1, 5, 6],
            vec![0, 1, 6],
            vec![0, 6, 4],
            vec![3, 5, 4],
            vec![3, 7, 5],
            vec![5, 7, 6],
            vec![6, 7, 8],
            vec![4, 6, 8],
            vec![3, 4, 8],
            vec![0, 7, 3],
            vec![0, 1, 7],
            vec![1, 8, 7],
            vec![1, 2, 8],
            vec![2, 3, 8],
            vec![0, 3, 2]
        ],
    }
}

#[test]
fn test_4() {
    let sc = klein_bottle_without_an_edge();
    let _ = calc_homology_group_list(sc);
}

#[test]
fn filled_triangle_is_contractible() {
    assert_eq!(orders(triangle()), vec![vec![1], vec![], vec![]]);
    check_records(triangle(), triangle());
    let l = calc_homology_group_list(triangle()).unwrap();
    assert_eq!(l.len(), 3);
    assert_eq!(l[0].summands, vec![Summand::Free]);
    assert_eq!(l[1].summands, vec![]);
    assert_eq!(l[2].summands, vec![]);
}

#[test]
fn tetrahedron_boundary_groups() {
    let o = orders(tetrahedron());
    assert_eq!(o[0], vec![1]);
    assert_eq!(o[1], Vec::<i128>::new());
    // The four faces close up into a sphere: the kernel of the top
    // boundary operator has rank one and nothing bounds it.
    assert_eq!(o[2], vec![1]);
    check_records(tetrahedron(), tetrahedron());
}

#[test]
fn torus_groups() {
    assert_eq!(orders(torus()), vec![vec![1], vec![1, 1], vec![1]]);
    check_records(torus(), torus());
    let l = calc_homology_group_list(torus()).unwrap();
    assert_eq!(l[0].summands, vec![Summand::Free]);
    assert_eq!(l[1].summands, vec![Summand::Free, Summand::Free]);
    assert_eq!(l[2].summands, vec![Summand::Free]);
    assert_eq!(l[1].generators.nrows(), 27);
    assert_eq!(l[1].generators.ncols(), 2);
}

#[test]
fn klein_bottle_groups() {
    assert_eq!(orders(klein_bottle()), vec![vec![1], vec![1, 2], vec![]]);
    check_records(klein_bottle(), klein_bottle());
    let l = calc_homology_group_list(klein_bottle()).unwrap();
    assert_eq!(l[0].summands, vec![Summand::Free]);
    assert_eq!(l[1].summands, vec![Summand::Free, Summand::Torsion(2)]);
    assert_eq!(l[2].summands, vec![]);
    assert_eq!(l[2].generators.ncols(), 0);
}

#[test]
fn boundary_of_boundary_vanishes() {
    for sc in [triangle(), tetrahedron(), torus(), klein_bottle()] {
        let (d0, d1, d2, d3) = calc_boundary_operators(&sc).unwrap();
        assert_eq!(d0, IntMatrix::zeros(1, sc.verts.len()));
        assert_eq!(d3, IntMatrix::zeros(0, 0));
        assert_eq!(d1.nrows(), sc.verts.len());
        assert_eq!(d1.ncols(), sc.edges.len());
        assert_eq!(d2.nrows(), sc.edges.len());
        assert_eq!(d2.ncols(), sc.faces.len());
        assert_eq!(times(&d0, &d1), IntMatrix::zeros(1, sc.edges.len()));
        assert_eq!(times(&d1, &d2), IntMatrix::zeros(sc.verts.len(), sc.faces.len()));
    }
}

#[test]
fn boundary_operator_entries() {
    let sc = triangle();
    let d1 = calc_boundary_operator(&sc.verts, &sc.edges).unwrap();
    assert_eq!(d1, grid(&[vec![-1, 0, 1], vec![1, -1, 0], vec![0, 1, -1]]));
    let d2 = calc_boundary_operator(&sc.edges, &sc.faces).unwrap();
    assert_eq!(d2, grid(&[vec![1], vec![1], vec![1]]));
    assert_eq!(simplex_boundary(&vec![0, 1, 2], &sc.edges), Ok(vec![1, 1, 1]));
    assert_eq!(simplex_boundary(&vec![0, 2], &sc.verts), Ok(vec![-1, 0, 1]));
    assert_eq!(simplex_boundary(&vec![1], &vec![]), Err(HomologyError::MalformedComplex));
    let tet = tetrahedron();
    let d2 = calc_boundary_operator(&tet.edges, &tet.faces).unwrap();
    assert_eq!(
        d2,
        grid(&[
            vec![1, 1, 0, 0],
            vec![-1, 0, 1, 0],
            vec![0, -1, -1, 0],
            vec![1, 0, 0, 1],
            vec![0, 1, 0, -1],
            vec![0, 0, 1, 1],
        ])
    );
}

#[test]
fn permutation_signs() {
    assert_eq!(perm_sign(&vec![4], &vec![4]), 1);
    assert_eq!(perm_sign(&vec![1, 2], &vec![1, 2]), 1);
    assert_eq!(perm_sign(&vec![2, 1], &vec![1, 2]), -1);
    assert_eq!(perm_sign(&vec![0, 1, 2], &vec![0, 1, 2]), 1);
    assert_eq!(perm_sign(&vec![1, 2, 0], &vec![0, 1, 2]), 1);
    assert_eq!(perm_sign(&vec![2, 0, 1], &vec![0, 1, 2]), 1);
    assert_eq!(perm_sign(&vec![1, 0, 2], &vec![0, 1, 2]), -1);
    assert_eq!(perm_sign(&vec![0, 2, 1], &vec![0, 1, 2]), -1);
    assert_eq!(perm_sign(&vec![2, 1, 0], &vec![0, 1, 2]), -1);
    assert_eq!(perm_sign(&vec![3, 2, 1, 0], &vec![0, 1, 2, 3]), 1);
}

#[test]
fn missing_faces_are_reported() {
    // An edge that ends in a vertex the complex does not have.
    let sc = SimplicalComplex {
        verts: vec![vec![0], vec![1]],
        edges: vec![vec![0, 1], vec![1, 2]],
        faces: vec![],
    };
    assert_eq!(calc_boundary_operators(&sc).err(), Some(HomologyError::MalformedComplex));
    assert_eq!(calc_homology_groups(sc).err(), Some(HomologyError::MalformedComplex));
    // A face one of whose sides is not an edge of the complex.
    let sc = SimplicalComplex {
        verts: vec![vec![0], vec![1], vec![2]],
        edges: vec![vec![0, 1], vec![1, 2]],
        faces: vec![vec![0, 1, 2]],
    };
    assert_eq!(
        calc_boundary_operator(&sc.edges, &sc.faces).err(),
        Some(HomologyError::MalformedComplex)
    );
    assert!(calc_boundary_operator(&sc.verts, &sc.edges).is_ok());
    assert_eq!(calc_homology_groups(sc).err(), Some(HomologyError::MalformedComplex));
    // An edge listed with three vertices has no face among the vertices.
    let sc = SimplicalComplex {
        verts: vec![vec![0], vec![1], vec![2]],
        edges: vec![vec![0, 1, 2]],
        faces: vec![],
    };
    assert_eq!(calc_homology_group_list(sc).err(), Some(HomologyError::MalformedComplex));
    assert_eq!(
        calc_homology_group_list(torus_without_an_edge()).err(),
        Some(HomologyError::MalformedComplex)
    );
    assert_eq!(
        calc_homology_groups(klein_bottle_without_an_edge()).err(),
        Some(HomologyError::MalformedComplex)
    );
}

#[test]
fn complexes_without_faces() {
    // Three isolated vertices: three components.
    let sc = SimplicalComplex {
        verts: vec![vec![0], vec![1], vec![2]],
        edges: vec![],
        faces: vec![],
    };
    let g = calc_homology_groups(sc).unwrap();
    assert_eq!(g[0].0, IntMatrix::identity(3));
    assert_eq!(g[0].1, vec![1, 1, 1]);
    assert_eq!(g[1].1, Vec::<i128>::new());
    assert_eq!(g[2].1, Vec::<i128>::new());
    // A hollow triangle: one component, one loop.
    let sc = SimplicalComplex {
        verts: vec![vec![0], vec![1], vec![2]],
        edges: vec![vec![0, 1], vec![1, 2], vec![2, 0]],
        faces: vec![],
    };
    assert_eq!(orders(sc), vec![vec![1], vec![1], vec![]]);
    // Nothing at all.
    let sc = SimplicalComplex { verts: vec![], edges: vec![], faces: vec![] };
    assert_eq!(orders(sc), vec![vec![], vec![], vec![]]);
}

#[test]
fn pivot_rows() {
    let m = grid(&[vec![0, 0, 3], vec![0, 0, 1], vec![2, 0, 0]]);
    assert_eq!(pivot_of(&m, 0), Some(2));
    assert_eq!(pivot_of(&m, 1), None);
    assert_eq!(pivot_of(&m, 2), Some(0));
    assert_eq!(np_map(&m), vec![Some(2), None, Some(0)]);
    assert_eq!(np_map(&IntMatrix::zeros(0, 2)), vec![None, None]);
    assert_eq!(np_map(&IntMatrix::zeros(2, 0)), Vec::<Option<usize>>::new());
}

#[test]
fn column_reduction() {
    let m = grid(&[vec![2, 3], vec![0, 1]]);
    assert_eq!(col_r(m), Ok(grid(&[vec![0, 1], vec![-2, 1]])));
    let m = grid(&[vec![1, 5, -7], vec![0, 1, 2], vec![0, 0, 1]]);
    assert_eq!(col_r(m), Ok(grid(&[vec![1, 0, 0], vec![0, 1, 0], vec![0, 0, 1]])));
    let m = grid(&[vec![-2, 7]]);
    assert_eq!(col_r(m), Ok(grid(&[vec![0, 1]])));
    assert_eq!(col_r(IntMatrix::zeros(0, 3)), Ok(IntMatrix::zeros(0, 3)));
    assert_eq!(col_r(IntMatrix::zeros(3, 0)), Ok(IntMatrix::zeros(3, 0)));
}

#[test]
fn column_reduction_reports_overflow() {
    let m = grid(&[vec![1, i128::MIN]]);
    assert_eq!(col_r(m), Err(HomologyError::Overflow));
    let m = grid(&[vec![1, 2], vec![i128::MAX, -3]]);
    assert_eq!(col_r(m), Err(HomologyError::Overflow));
}

#[test]
fn reduced_bases_are_fixed_points() {
    let reduced = [
        grid(&[vec![0, 1], vec![-2, 1]]),
        grid(&[vec![1, 0, 0], vec![0, 1, 0], vec![0, 0, 1]]),
        grid(&[vec![3, 0, 0], vec![1, 4, 0], vec![0, 7, 9]]),
        grid(&[vec![0, 0], vec![0, 5]]),
    ];
    for m in reduced {
        let once = col_r(m.copy()).unwrap();
        assert_eq!(once, m);
        let twice = col_r(once).unwrap();
        assert_eq!(twice, m);
    }
    let m = grid(&[vec![1, 0], vec![0, 1], vec![4, -3]]);
    let (b, t) = col_r_same_tor(m.copy(), vec![1, 2]).unwrap();
    assert_eq!(b, m);
    assert_eq!(t, vec![1, 2]);
    let (b, t) = col_r_same_tor(b, t).unwrap();
    assert_eq!(b, m);
    assert_eq!(t, vec![1, 2]);
}

#[test]
fn column_reduction_with_orders() {
    // The second order is replaced by the common divisor of the two.
    let m = grid(&[vec![1, 0], vec![0, 1]]);
    let (b, t) = col_r_same_tor(m, vec![6, 4]).unwrap();
    assert_eq!(b, grid(&[vec![1, 0], vec![0, 1]]));
    assert_eq!(t, vec![6, 2]);
    // Coprime proper orders keep two columns apart.
    let m = grid(&[vec![1, 5], vec![0, 1]]);
    let (b, t) = col_r_same_tor(m, vec![3, 2]).unwrap();
    assert_eq!(b, grid(&[vec![1, 5], vec![0, 1]]));
    assert_eq!(t, vec![3, 2]);
    // A column does not act on one of larger order, but is acted on by it.
    let m = grid(&[vec![1, 5], vec![0, 1]]);
    let (b, t) = col_r_same_tor(m, vec![1, 2]).unwrap();
    assert_eq!(b, grid(&[vec![1, 5], vec![0, 1]]));
    assert_eq!(t, vec![1, 2]);
    let m = grid(&[vec![1, 5], vec![0, 1]]);
    let (b, t) = col_r_same_tor(m, vec![2, 2]).unwrap();
    assert_eq!(b, grid(&[vec![1, 0], vec![0, 1]]));
    assert_eq!(t, vec![2, 2]);
    let m = grid(&[vec![1, i128::MIN]]);
    assert_eq!(col_r_same_tor(m, vec![1, 1]), Err(HomologyError::Overflow));
}

#[test]
fn generators_are_matched_by_pivot_row() {
    let z = grid(&[vec![1, 0, 0], vec![0, 1, 0], vec![0, 0, 1], vec![2, 3, 4]]);
    let b = grid(&[vec![0, 0], vec![1, 0], vec![0, 1], vec![0, 5]]);
    // Column 0 has no partner, column 1 meets order 1, column 2 meets order 3.
    let (g, o) = match_generators(&z, &b, &vec![1, 3]);
    assert_eq!(g, grid(&[vec![1, 0], vec![0, 0], vec![0, 1], vec![2, 4]]));
    assert_eq!(o, vec![1, 3]);
    // A zero cycle column contributes nothing.
    let z = grid(&[vec![0, 1], vec![0, 0]]);
    let (g, o) = match_generators(&z, &IntMatrix::zeros(0, 0), &vec![]);
    assert_eq!(g, grid(&[vec![1], vec![0]]));
    assert_eq!(o, vec![1]);
    // Of two boundary columns on the same row the first one counts.
    let z = grid(&[vec![1]]);
    let b = grid(&[vec![2, 3]]);
    let (_, o) = match_generators(&z, &b, &vec![4, 5]);
    assert_eq!(o, vec![4]);
}

#[test]
fn bases_of_an_operator() {
    let m = grid(&[vec![2, 0], vec![0, 0]]);
    let (b, t, z) = calc_cohomology(&m).unwrap();
    assert_eq!(t, vec![2]);
    assert_eq!(b.nrows(), 2);
    assert_eq!(b.ncols(), 1);
    assert_eq!(z.nrows(), 2);
    assert_eq!(z.ncols(), 1);
    assert_eq!(times(&m, &z), IntMatrix::zeros(2, 1));
    let s = smith_normalize(&m).unwrap();
    let (b2, t2, z2) = cohomology_from(s).unwrap();
    assert_eq!(b2, b);
    assert_eq!(t2, t);
    assert_eq!(z2, z);
}

#[test]
fn homology_between_two_operators() {
    // Multiplication by two on a single generator leaves a summand of order two.
    let d1 = IntMatrix::zeros(1, 1);
    let d2 = grid(&[vec![2]]);
    let (g, o) = calc_homology(&d1, &d2).unwrap();
    assert_eq!(g, grid(&[vec![1]]));
    assert_eq!(o, vec![2]);
    // An isomorphism kills the group.
    let d2 = grid(&[vec![-1]]);
    let (g, o) = calc_homology(&d1, &d2).unwrap();
    assert_eq!(g.ncols(), 0);
    assert_eq!(o, Vec::<i128>::new());
    // Nothing entering: the whole basis is free.
    let (g, o) = calc_homology(&IntMatrix::zeros(1, 3), &IntMatrix::zeros(0, 0)).unwrap();
    assert_eq!(g, IntMatrix::identity(3));
    assert_eq!(o, vec![1, 1, 1]);
    assert_eq!(
        calc_homology(&grid(&[vec![i128::MIN]]), &IntMatrix::zeros(0, 0)).err(),
        Some(HomologyError::Overflow)
    );
}

fn sides_of(faces: &Vec<Vec<usize>>) -> Vec<Vec<usize>> {
    let mut edges: Vec<Vec<usize>> = Vec::new();
    for f in faces {
        for (a, b) in [(0, 1), (0, 2), (1, 2)] {
            let (x, y) = if f[a] < f[b] { (f[a], f[b]) } else { (f[b], f[a]) };
            if !edges.contains(&vec![x, y]) {
                edges.push(vec![x, y]);
            }
        }
    }
    edges.sort();
    edges
}

#[test]
fn projective_plane_groups() {
    let faces: Vec<Vec<usize>> = vec![
        vec![1, 2, 4], vec![1, 2, 5], vec![1, 3, 6], vec![1, 3, 4], vec![1, 5, 6],
        vec![2, 3, 5], vec![2, 3, 6], vec![2, 4, 6], vec![3, 4, 5], vec![4, 5, 6],
    ];
    let make = || SimplicalComplex {
        verts: (1..7).map(|v| vec![v]).collect(),
        edges: sides_of(&faces),
        faces: faces.clone(),
    };
    assert_eq!(make().edges.len(), 15);
    assert_eq!(orders(make()), vec![vec![1], vec![2], vec![]]);
    check_records(make(), make());
    let l = calc_homology_group_list(make()).unwrap();
    assert_eq!(l[1].summands, vec![Summand::Torsion(2)]);
}

#[test]
fn octahedron_and_moebius_band_groups() {
    let faces: Vec<Vec<usize>> = vec![
        vec![0, 2, 4], vec![0, 2, 5], vec![0, 3, 4], vec![0, 3, 5],
        vec![1, 2, 4], vec![1, 2, 5], vec![1, 3, 4], vec![1, 3, 5],
    ];
    let make = || SimplicalComplex {
        verts: (0..6).map(|v| vec![v]).collect(),
        edges: sides_of(&faces),
        faces: faces.clone(),
    };
    assert_eq!(orders(make()), vec![vec![1], vec![], vec![1]]);
    check_records(make(), make());

    let faces: Vec<Vec<usize>> =
        vec![vec![0, 1, 2], vec![1, 2, 3], vec![2, 3, 4], vec![3, 4, 0], vec![4, 0, 1]];
    let make = || SimplicalComplex {
        verts: (0..5).map(|v| vec![v]).collect(),
        edges: sides_of(&faces),
        faces: faces.clone(),
    };
    assert_eq!(orders(make()), vec![vec![1], vec![1], vec![]]);
    check_records(make(), make());
}

#[test]
fn components_are_counted() {
    let make = || SimplicalComplex {
        verts: (0..6).map(|v| vec![v]).collect(),
        edges: vec![vec![0, 1], vec![1, 2], vec![0, 2], vec![3, 4], vec![4, 5], vec![3, 5]],
        faces: vec![],
    };
    assert_eq!(orders(make()), vec![vec![1, 1], vec![1, 1], vec![]]);
    check_records(make(), make());
}
