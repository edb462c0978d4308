use simplicial_homology::arith::{div_toward_zero, magnitude, mul_add, sign};
use simplicial_homology::elementary::{
    add_col_multiple, add_row_multiple, negate_col, swap_cols, swap_rows,
};
use simplicial_homology::error::HomologyError;
use simplicial_homology::matrix::IntMatrix;
use simplicial_homology::product::{checked_product, is_identity};
use simplicial_homology::snf::{
    iamin_full, is_mod_zeros, is_zeros, mod_full, rank, smith_normalize, Decomposed,
};

fn matrix(rows: &[Vec<i128>]) -> IntMatrix {
    let nr = rows.len();
    let nc = if nr == 0 { 0 } else { rows[0].len() };
    let mut data: Vec<i128> = Vec::new();
    for r in rows {
        assert_eq!(r.len(), nc);
        for v in r {
            data.push(*v);
        }
    }
    IntMatrix::from_row_slice(nr, nc, &data)
}

fn product(a: &IntMatrix, b: &IntMatrix) -> IntMatrix {
    assert_eq!(a.ncols(), b.nrows());
    let mut m = IntMatrix::zeros(a.nrows(), b.ncols());
    for i in 0..a.nrows() {
        for j in 0..b.ncols() {
            let mut s: i128 = 0;
            for l in 0..a.ncols() {
                s += a.get(i, l) * b.get(l, j);
            }
            m.set(i, j, s);
        }
    }
    m
}

// Fraction-free (Bareiss) elimination: the rank, and for a square
// matrix the determinant.
fn bareiss(m: &IntMatrix) -> (usize, i128) {
    let nr = m.nrows();
    let nc = m.ncols();
    let mut a: Vec<Vec<i128>> = (0..nr).map(|i| (0..nc).map(|j| m.get(i, j)).collect()).collect();
    let mut prev: i128 = 1;
    let mut sign_flip: i128 = 1;
    let mut row = 0;
    let mut last: i128 = if nr == 0 { 1 } else { 0 };
    for col in 0..nc {
        if row >= nr {
            break;
        }
        let mut piv = None;
        for i in row..nr {
            if a[i][col] != 0 {
                piv = Some(i);
                break;
            }
        }
        let p = match piv {
            Some(p) => p,
            None => continue,
        };
        if p != row {
            a.swap(p, row);
            sign_flip = -sign_flip;
        }
        for i in row + 1..nr {
            for j in col + 1..nc {
                a[i][j] = (a[i][j] * a[row][col] - a[i][col] * a[row][j]) / prev;
            }
            a[i][col] = 0;
        }
        prev = a[row][col];
        last = a[row][col];
        row += 1;
    }
    let det = if nr == nc && row == nr { sign_flip * last } else { 0 };
    (row, det)
}

fn check_decomposition(a: &IntMatrix, d: &Decomposed) {
    let nr = a.nrows();
    let nc = a.ncols();
    assert_eq!(product(&product(&d.p, a), &d.q), d.b);
    assert_eq!(product(a, &d.q), product(&d.p_inv, &d.b));
    assert_eq!(product(&d.p, &d.p_inv), IntMatrix::identity(nr));
    assert_eq!(product(&d.p_inv, &d.p), IntMatrix::identity(nr));
    assert_eq!(d.validate_inverse(), Ok(()));
    for i in 0..nr {
        for j in 0..nc {
            if i != j {
                assert_eq!(d.b.get(i, j), 0);
            }
        }
    }
    let n = if nr < nc { nr } else { nc };
    let r = rank(&d.b);
    for i in 0..n {
        if i < r {
            assert!(d.b.get(i, i) > 0);
        } else {
            assert_eq!(d.b.get(i, i), 0);
        }
        if i + 1 < r {
            assert_eq!(d.b.get(i + 1, i + 1) % d.b.get(i, i), 0);
        }
    }
    if nr > 0 {
        assert_eq!(bareiss(&d.p).1.abs(), 1);
    }
    if nc > 0 {
        assert_eq!(bareiss(&d.q).1.abs(), 1);
    }
    assert_eq!(r, bareiss(a).0);
}

#[test]
fn snf_test() {
    let m = IntMatrix::from_row_slice(
        4,
        4,
        &[-6, 111, -36, 6, 5, -672, 210, 74, 0, -255, 81, 24, -7, 255, -81, -10],
    );
    assert_eq!(
        smith_normalize(&m).unwrap().b,
        IntMatrix::from_row_slice(4, 4, &[1, 0, 0, 0, 0, 3, 0, 0, 0, 0, 21, 0, 0, 0, 0, 0,])
    );
}

#[test]
fn snf_example_keeps_its_witnesses() {
    let m = IntMatrix::from_row_slice(
        4,
        4,
        &[-6, 111, -36, 6, 5, -672, 210, 74, 0, -255, 81, 24, -7, 255, -81, -10],
    );
    let d = smith_normalize(&m).unwrap();
    check_decomposition(&m, &d);
    assert_eq!(rank(&d.b), 3);
}

#[test]
fn snf_repairs_divisibility() {
    let m = matrix(&[vec![2, 2], vec![2, 3]]);
    let d = smith_normalize(&m).unwrap();
    assert_eq!(d.b, matrix(&[vec![1, 0], vec![0, 2]]));
    check_decomposition(&m, &d);
    let m = matrix(&[vec![2, 0], vec![0, 3]]);
    let d = smith_normalize(&m).unwrap();
    assert_eq!(d.b, matrix(&[vec![1, 0], vec![0, 6]]));
    check_decomposition(&m, &d);
    let m = matrix(&[vec![4, 0, 0], vec![0, 6, 0], vec![0, 0, 10]]);
    let d = smith_normalize(&m).unwrap();
    assert_eq!(d.b, matrix(&[vec![2, 0, 0], vec![0, 2, 0], vec![0, 0, 60]]));
    check_decomposition(&m, &d);
}

#[test]
fn snf_of_rectangular_matrices() {
    let m = matrix(&[vec![2, 4, 4], vec![-6, 6, 12], vec![10, 4, 16]]);
    let d = smith_normalize(&m).unwrap();
    assert_eq!(d.b, matrix(&[vec![2, 0, 0], vec![0, 2, 0], vec![0, 0, 156]]));
    check_decomposition(&m, &d);
    let m = matrix(&[vec![1, 2, 3], vec![4, 5, 6]]);
    let d = smith_normalize(&m).unwrap();
    assert_eq!(d.b, matrix(&[vec![1, 0, 0], vec![0, 3, 0]]));
    check_decomposition(&m, &d);
    let m = matrix(&[vec![1, 4], vec![2, 5], vec![3, 6]]);
    let d = smith_normalize(&m).unwrap();
    assert_eq!(d.b, matrix(&[vec![1, 0], vec![0, 3], vec![0, 0]]));
    check_decomposition(&m, &d);
    let m = matrix(&[vec![0, 0, 0], vec![0, -5, 0]]);
    let d = smith_normalize(&m).unwrap();
    assert_eq!(d.b, matrix(&[vec![5, 0, 0], vec![0, 0, 0]]));
    check_decomposition(&m, &d);
}

#[test]
fn snf_rank_agrees_with_elimination() {
    let cases: Vec<IntMatrix> = vec![
        matrix(&[vec![1, 2, 3], vec![2, 4, 6], vec![1, 1, 1]]),
        matrix(&[vec![6, -4], vec![-9, 6]]),
        matrix(&[vec![3, 1, 4, 1], vec![5, 9, 2, 6], vec![8, 10, 6, 7]]),
        matrix(&[vec![0, 7], vec![0, 0], vec![0, 21]]),
        matrix(&[vec![12, 18, 30], vec![18, 27, 45], vec![30, 45, 76]]),
        matrix(&[vec![-1]]),
    ];
    let expected: Vec<usize> = vec![2, 1, 2, 1, 2, 1];
    for (m, want) in cases.iter().zip(expected.iter()) {
        let d = smith_normalize(m).unwrap();
        assert_eq!(rank(&d.b), *want);
        assert_eq!(bareiss(m).0, *want);
        check_decomposition(m, &d);
    }
}

#[test]
fn snf_of_degenerate_inputs() {
    let m = IntMatrix::zeros(0, 0);
    let d = smith_normalize(&m).unwrap();
    assert_eq!(d.b, IntMatrix::zeros(0, 0));
    assert_eq!(d.p, IntMatrix::identity(0));
    assert_eq!(d.q, IntMatrix::identity(0));
    assert_eq!(rank(&d.b), 0);

    let m = IntMatrix::zeros(2, 3);
    let d = smith_normalize(&m).unwrap();
    assert_eq!(d.b, IntMatrix::zeros(2, 3));
    assert_eq!(d.p, IntMatrix::identity(2));
    assert_eq!(d.q, IntMatrix::identity(3));
    assert_eq!(d.p_inv, IntMatrix::identity(2));
    assert_eq!(rank(&d.b), 0);

    let m = IntMatrix::zeros(0, 4);
    let d = smith_normalize(&m).unwrap();
    assert_eq!(d.b, IntMatrix::zeros(0, 4));
    assert_eq!(d.q, IntMatrix::identity(4));

    let m = IntMatrix::zeros(3, 0);
    let d = smith_normalize(&m).unwrap();
    assert_eq!(d.b, IntMatrix::zeros(3, 0));
    assert_eq!(d.p, IntMatrix::identity(3));
}

#[test]
fn snf_reports_overflow() {
    let m = matrix(&[vec![i128::MIN]]);
    assert_eq!(smith_normalize(&m).err(), Some(HomologyError::Overflow));
    let big = i128::MAX;
    let m = matrix(&[vec![3, big], vec![big, 5]]);
    assert_eq!(smith_normalize(&m).err(), Some(HomologyError::Overflow));
}

#[test]
fn pivot_search_finds_the_first_least_entry() {
    let m = matrix(&[vec![4, -2, 7], vec![0, 2, -3], vec![5, 9, 2]]);
    assert_eq!(iamin_full(&m, 0), Ok((0, 1)));
    assert_eq!(iamin_full(&m, 1), Ok((1, 1)));
    assert_eq!(iamin_full(&m, 2), Ok((2, 2)));
    let m = matrix(&[vec![0, 0], vec![0, i128::MIN]]);
    assert_eq!(iamin_full(&m, 0), Ok((1, 1)));
}

#[test]
fn pivot_search_rejects_degenerate_regions() {
    assert_eq!(iamin_full(&IntMatrix::zeros(0, 0), 0), Err(HomologyError::DegenerateMatrix));
    assert_eq!(iamin_full(&IntMatrix::zeros(2, 3), 0), Err(HomologyError::DegenerateMatrix));
    let m = matrix(&[vec![1, 2], vec![3, 0]]);
    assert_eq!(iamin_full(&m, 1), Err(HomologyError::DegenerateMatrix));
    assert_eq!(iamin_full(&m, 2), Err(HomologyError::DegenerateMatrix));
    assert_eq!(iamin_full(&m, 7), Err(HomologyError::DegenerateMatrix));
}

#[test]
fn divisibility_search() {
    let m = matrix(&[vec![2, 0, 0], vec![0, 4, 6], vec![0, 3, -8]]);
    assert_eq!(mod_full(&m, 0), Some((2, 1)));
    assert!(!is_mod_zeros(&m, 0));
    let m = matrix(&[vec![2, 0, 0], vec![0, 4, 6], vec![0, -2, -8]]);
    assert_eq!(mod_full(&m, 0), None);
    assert!(is_mod_zeros(&m, 0));
    let m = matrix(&[vec![3, 5], vec![7, 9]]);
    assert!(is_mod_zeros(&m, 1));
}

#[test]
fn zero_test() {
    assert!(is_zeros(&IntMatrix::zeros(3, 2)));
    assert!(is_zeros(&IntMatrix::zeros(0, 0)));
    assert!(!is_zeros(&matrix(&[vec![0, 0], vec![0, -1]])));
}

#[test]
fn rank_counts_nonzero_diagonal_entries() {
    assert_eq!(rank(&matrix(&[vec![1, 0, 0], vec![0, 3, 0], vec![0, 0, 0]])), 2);
    assert_eq!(rank(&matrix(&[vec![1, 0, 0, 0], vec![0, 0, 0, 0]])), 1);
    assert_eq!(rank(&IntMatrix::zeros(0, 5)), 0);
    assert_eq!(rank(&IntMatrix::identity(4)), 4);
}

#[test]
fn storage_round_trip() {
    let mut m = IntMatrix::zeros(2, 3);
    assert_eq!(m.nrows(), 2);
    assert_eq!(m.ncols(), 3);
    for i in 0..2 {
        for j in 0..3 {
            assert_eq!(m.get(i, j), 0);
        }
    }
    m.set(1, 2, -9);
    m.set(0, 1, 4);
    assert_eq!(m.get(1, 2), -9);
    assert_eq!(m.get(0, 1), 4);
    assert_eq!(m.get(0, 0), 0);
    assert_eq!(m, matrix(&[vec![0, 4, 0], vec![0, 0, -9]]));
    let c = m.copy();
    m.set(0, 0, 1);
    assert_eq!(c.get(0, 0), 0);
    assert_eq!(c.get(1, 2), -9);
    assert_eq!(c.nrows(), 2);
    assert_eq!(c.ncols(), 3);
    let id = IntMatrix::identity(3);
    assert_eq!(id, matrix(&[vec![1, 0, 0], vec![0, 1, 0], vec![0, 0, 1]]));
    let r = IntMatrix::from_row_slice(2, 2, &[1, 2, 3, 4]);
    assert_eq!(r.get(0, 1), 2);
    assert_eq!(r.get(1, 0), 3);
}

#[test]
fn elementary_operations() {
    let mut m = matrix(&[vec![1, 2], vec![3, 4], vec![5, 6]]);
    swap_rows(&mut m, 0, 2);
    assert_eq!(m, matrix(&[vec![5, 6], vec![3, 4], vec![1, 2]]));
    swap_cols(&mut m, 0, 1);
    assert_eq!(m, matrix(&[vec![6, 5], vec![4, 3], vec![2, 1]]));
    assert_eq!(add_row_multiple(&mut m, 0, 2, -3), Ok(()));
    assert_eq!(m, matrix(&[vec![0, 2], vec![4, 3], vec![2, 1]]));
    assert_eq!(add_col_multiple(&mut m, 1, 0, 2), Ok(()));
    assert_eq!(m, matrix(&[vec![0, 2], vec![4, 11], vec![2, 5]]));
    assert_eq!(negate_col(&mut m, 1), Ok(()));
    assert_eq!(m, matrix(&[vec![0, -2], vec![4, -11], vec![2, -5]]));
}

#[test]
fn elementary_operations_report_overflow() {
    let mut m = matrix(&[vec![i128::MAX, 1], vec![1, 1]]);
    assert_eq!(add_row_multiple(&mut m, 0, 1, 1), Err(HomologyError::Overflow));
    let mut m = matrix(&[vec![1, i128::MAX], vec![1, 2]]);
    assert_eq!(add_col_multiple(&mut m, 0, 1, 2), Err(HomologyError::Overflow));
    let mut m = matrix(&[vec![1, i128::MIN]]);
    assert_eq!(negate_col(&mut m, 1), Err(HomologyError::Overflow));
    let mut m = matrix(&[vec![1, i128::MIN]]);
    assert_eq!(negate_col(&mut m, 0), Ok(()));
    assert_eq!(m, matrix(&[vec![-1, i128::MIN]]));
}

#[test]
fn checked_arithmetic() {
    assert_eq!(sign(0), 0);
    assert_eq!(sign(-17), -1);
    assert_eq!(sign(i128::MIN), -1);
    assert_eq!(sign(i128::MAX), 1);
    assert_eq!(magnitude(-5), 5);
    assert_eq!(magnitude(i128::MIN), 1u128 << 127);
    assert_eq!(mul_add(7, -3, 4), Some(-5));
    assert_eq!(mul_add(0, i128::MAX, 2), None);
    assert_eq!(mul_add(i128::MAX, 1, 1), None);
    assert_eq!(div_toward_zero(-7, 2), -3);
    assert_eq!(div_toward_zero(7, 2), 3);
    assert_eq!(div_toward_zero(-6, 3), -2);
}

#[test]
fn snf_returns_a_normal_form_as_it_is() {
    let forms = [
        matrix(&[vec![1, 0, 0, 0], vec![0, 3, 0, 0], vec![0, 0, 21, 0], vec![0, 0, 0, 0]]),
        matrix(&[vec![2, 0, 0], vec![0, 6, 0]]),
        matrix(&[vec![5], vec![0], vec![0]]),
        matrix(&[vec![1, 0], vec![0, 1]]),
    ];
    for m in forms {
        let d = smith_normalize(&m).unwrap();
        assert_eq!(d.b, m);
        assert_eq!(d.p, IntMatrix::identity(m.nrows()));
        assert_eq!(d.q, IntMatrix::identity(m.ncols()));
        assert_eq!(d.p_inv, IntMatrix::identity(m.nrows()));
    }
    // Normalizing twice changes nothing more.
    let m = matrix(&[vec![2, 4, 4], vec![-6, 6, 12], vec![10, 4, 16]]);
    let once = smith_normalize(&m).unwrap();
    let twice = smith_normalize(&once.b).unwrap();
    assert_eq!(twice.b, once.b);
    assert_eq!(twice.p, IntMatrix::identity(3));
    assert_eq!(twice.q, IntMatrix::identity(3));
}

#[test]
fn inverse_validation() {
    let by_hand = |p: IntMatrix, p_inv: IntMatrix| Decomposed {
        p,
        q: IntMatrix::identity(2),
        b: IntMatrix::zeros(2, 2),
        p_inv,
    };
    let d = by_hand(matrix(&[vec![1, 2], vec![0, 1]]), matrix(&[vec![1, -2], vec![0, 1]]));
    assert_eq!(d.validate_inverse(), Ok(()));
    let d = by_hand(matrix(&[vec![1, 2], vec![0, 1]]), matrix(&[vec![1, 2], vec![0, 1]]));
    assert_eq!(d.validate_inverse(), Err(HomologyError::TransformNotInvertible));
    let d = by_hand(matrix(&[vec![2, 0], vec![0, 1]]), matrix(&[vec![1, 0], vec![0, 1]]));
    assert_eq!(d.validate_inverse(), Err(HomologyError::TransformNotInvertible));
    let d = by_hand(matrix(&[vec![1, 0, 0], vec![0, 1, 0]]), matrix(&[vec![1, 0], vec![0, 1]]));
    assert_eq!(d.validate_inverse(), Err(HomologyError::TransformNotInvertible));
    let d = by_hand(
        matrix(&[vec![i128::MAX, i128::MAX], vec![0, 1]]),
        matrix(&[vec![1, 1], vec![1, 1]]),
    );
    assert_eq!(d.validate_inverse(), Err(HomologyError::Overflow));
}

#[test]
fn checked_products() {
    let a = matrix(&[vec![1, 2, 3], vec![4, 5, 6]]);
    let b = matrix(&[vec![7, 8], vec![9, 10], vec![11, 12]]);
    assert_eq!(checked_product(&a, &b), Ok(matrix(&[vec![58, 64], vec![139, 154]])));
    assert_eq!(checked_product(&a, &b).unwrap(), product(&a, &b));
    assert_eq!(
        checked_product(&IntMatrix::zeros(2, 0), &IntMatrix::zeros(0, 3)),
        Ok(IntMatrix::zeros(2, 3))
    );
    let big = matrix(&[vec![i128::MAX, 1]]);
    let ones = matrix(&[vec![1], vec![1]]);
    assert_eq!(checked_product(&big, &ones), Err(HomologyError::Overflow));
    let twice = matrix(&[vec![2], vec![0]]);
    assert_eq!(checked_product(&big, &twice), Err(HomologyError::Overflow));
    assert!(is_identity(&IntMatrix::identity(3)));
    assert!(is_identity(&IntMatrix::zeros(0, 0)));
    assert!(!is_identity(&IntMatrix::zeros(2, 2)));
    assert!(!is_identity(&matrix(&[vec![1, 0, 0], vec![0, 1, 0]])));
    assert!(!is_identity(&matrix(&[vec![1, 1], vec![0, 1]])));
}

// A small linear congruential generator, so that the same matrices are
// drawn on every run.
fn draw(state: &mut u64, span: i128) -> i128 {
    *state = state.wrapping_mul(6364136223846793005).wrapping_add(1442695040888963407);
    let r = (*state >> 33) as i128;
    r % (2 * span + 1) - span
}

#[test]
fn snf_of_many_small_matrices() {
    let mut state: u64 = 20240229;
    for round in 0..400 {
        let nr = (round % 5) as usize;
        let nc = ((round / 5) % 6) as usize;
        let span: i128 = if round % 3 == 0 { 2 } else { 12 };
        let mut data: Vec<i128> = Vec::new();
        for _ in 0..nr * nc {
            data.push(draw(&mut state, span));
        }
        let m = IntMatrix::from_row_slice(nr, nc, &data);
        let d = smith_normalize(&m).unwrap();
        check_decomposition(&m, &d);
        let again = smith_normalize(&d.b).unwrap();
        assert_eq!(again.b, d.b);
    }
}
