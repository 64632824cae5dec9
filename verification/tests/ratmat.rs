use resolvent::ratmat::{basis_with_last, bilinear, checked_bilinear, same_projective_point, Mat};
use resolvent::rational::Rational;
use resolvent::algebra::{AlgebraBudget, AlgebraError};

fn r(i: i64) -> Rational {
    Rational::from_i64(i)
}

#[test]
fn det_rank_kernel_and_inverse() {
    let m = Mat::from_rows(&[vec![r(2), r(0), r(0)], vec![r(0), r(3), r(0)], vec![r(0), r(0), r(5)]]);
    assert_eq!(m.det(), r(30));
    assert_eq!(m.rank(), 3);
    assert!(m.kernel().is_empty());
    let inv = m.inverse().expect("nonsingular");
    assert_eq!(inv.matmul(&m), Mat::ident(3));

    let sing = Mat::from_rows(&[vec![r(1), r(2), r(3)], vec![r(2), r(4), r(6)], vec![r(0), r(0), r(0)]]);
    assert_eq!(sing.det(), r(0));
    assert_eq!(sing.rank(), 1);
    assert_eq!(sing.kernel().len(), 2);
    assert!(sing.inverse().is_none());
}

#[test]
fn congruence_diagonalises_and_reports_inertia() {
    let m = Mat::from_rows(&[vec![r(0), r(1)], vec![r(1), r(0)]]);
    let (d, t) = m.congruence_diag();
    let got = t.transpose().matmul(&m).matmul(&t);
    for (i, di) in d.iter().enumerate().take(2) {
        for j in 0..2 {
            let want = if i == j { di.clone() } else { r(0) };
            assert_eq!(*got.get(i, j), want);
        }
    }
    assert_eq!(m.inertia(), (1, 1, 0));
    assert_eq!(Mat::ident(4).inertia(), (4, 0, 0));
    assert_eq!(Mat::zeros(3, 3).inertia(), (0, 0, 3));
}

#[test]
fn basis_extension_and_projective_helpers() {
    let v = vec![r(0), r(2), r(0)];
    let b = basis_with_last(&v);
    assert_eq!(b.rank(), 3);
    assert_eq!(b.col(2), v);
    assert!(same_projective_point(&[r(1), r(2)], &[r(3), r(6)]));
    assert!(!same_projective_point(&[r(1), r(2)], &[r(3), r(7)]));
    assert!(!same_projective_point(&[r(1), r(0)], &[r(1), r(1)]));
    assert!(Mat::ident(2).proportional_to(&Mat::ident(2).scale(&r(7))));
    assert!(!Mat::ident(2).proportional_to(&Mat::zeros(2, 2)));
}

#[test]
fn bilinear_matches_by_hand() {
    let m = Mat::from_rows(&[vec![r(1), r(2)], vec![r(2), r(3)]]);
    assert_eq!(bilinear(&[r(1), r(1)], &m, &[r(1), r(1)]), r(8));
}

#[test]
fn ragged_rows_and_short_columns_are_shape_errors() {
    let ragged = Mat::try_from_rows(&[vec![r(1), r(2)], vec![r(3)]]);
    assert!(matches!(ragged, Err(AlgebraError::Shape { .. })));
    let cols = Mat::try_from_cols(2, &[vec![r(1), r(2)], vec![r(3)]]);
    assert!(matches!(cols, Err(AlgebraError::Shape { .. })));
    let ok = Mat::try_from_cols(2, &[vec![r(1), r(2)], vec![r(3), r(4)]]).unwrap();
    assert_eq!(*ok.get(0, 1), r(3));
    assert_eq!(ok.row(1), vec![r(2), r(4)]);
    assert_eq!(Mat::from_rows(&[]).rows, 0);
}

#[test]
fn malformed_matrices_are_rejected() {
    let bad = Mat { rows: 2, cols: 2, a: vec![r(1)] };
    assert!(matches!(bad.checked_matmul(&Mat::ident(2)), Err(AlgebraError::Shape { .. })));
    assert!(matches!(bad.checked_det(), Err(AlgebraError::Shape { .. })));
    assert!(matches!(bad.checked_add_mat(&bad), Err(AlgebraError::Shape { .. })));
    assert!(matches!(checked_bilinear(&[r(1)], &Mat::ident(2), &[r(1), r(1)]), Err(AlgebraError::Shape { .. })));
    let nonsquare = Mat::zeros(2, 3);
    assert!(matches!(nonsquare.checked_det(), Err(AlgebraError::Shape { .. })));
    assert!(matches!(nonsquare.checked_congruence_diag(), Err(AlgebraError::Shape { .. })));
    assert!(!bad.proportional_to(&bad));
}

#[test]
fn budgets_limit_dimension_coefficients_and_work() {
    let m = Mat::ident(3);
    let small = AlgebraBudget { max_expression_nodes: 1_000_000, max_matrix_dimension: 2, max_coefficient_bits: 64, max_root_bisections: 10, max_lazy_nodes: 1_000_000 };
    assert_eq!(m.checked_det_with_budget(small), Err(AlgebraError::MatrixDimension { actual: 3, limit: 2 }));
    let narrow = AlgebraBudget { max_expression_nodes: 1_000_000, max_matrix_dimension: 8, max_coefficient_bits: 1, max_root_bisections: 10, max_lazy_nodes: 1_000_000 };
    let big = Mat::from_rows(&[vec![r(7)]]);
    assert_eq!(big.checked_det_with_budget(narrow), Err(AlgebraError::CoefficientBits { actual: 4, limit: 1 }));
    let tiny_work = AlgebraBudget { max_expression_nodes: 1, max_matrix_dimension: 8, max_coefficient_bits: 64, max_root_bisections: 10, max_lazy_nodes: 1_000_000 };
    assert!(matches!(m.checked_matmul_with_budget(&m, tiny_work), Err(AlgebraError::BudgetExceeded { .. })));
    assert!(matches!(m.rref_with_budget(tiny_work), Err(AlgebraError::BudgetExceeded { .. })));
    let fine = AlgebraBudget::unlimited();
    assert_eq!(m.checked_matmul_with_budget(&m, fine).unwrap(), Mat::ident(3));
}

#[test]
fn products_sums_and_transposes_are_exact() {
    let a = Mat::from_rows(&[vec![r(1), r(2), r(3)], vec![r(4), r(5), r(6)]]);
    let b = a.transpose();
    assert_eq!(b.rows, 3);
    assert_eq!(*b.get(2, 1), r(6));
    let p = a.matmul(&b);
    assert_eq!(p, Mat::from_rows(&[vec![r(14), r(32)], vec![r(32), r(77)]]));
    let s = a.add_mat(&a);
    assert_eq!(s, a.scale(&r(2)));
    assert!(Mat::zeros(2, 2).is_zero());
    assert!(!a.is_zero());
    assert!(matches!(a.checked_matmul(&a), Err(AlgebraError::Shape { .. })));
}

#[test]
fn rref_has_unit_pivot_columns() {
    let m = Mat::from_rows(&[vec![r(0), r(2), r(4)], vec![r(1), r(1), r(1)]]);
    let (red, pivots) = m.rref();
    assert_eq!(pivots, vec![0, 1]);
    assert_eq!(red, Mat::from_rows(&[vec![r(1), r(0), r(-1)], vec![r(0), r(1), r(2)]]));
    let k = m.kernel();
    assert_eq!(k, vec![vec![r(1), r(-2), r(1)]]);
    assert_eq!(Mat::zeros(2, 3).rank(), 0);
    assert_eq!(Mat::zeros(2, 3).kernel().len(), 3);
}

#[test]
fn inverse_is_two_sided_and_kernel_vectors_vanish() {
    let m = Mat::from_rows(&[vec![r(1), r(2)], vec![r(3), r(4)]]);
    let inv = m.inverse().expect("nonsingular");
    assert_eq!(inv.matmul(&m), Mat::ident(2));
    assert_eq!(m.matmul(&inv), Mat::ident(2));
    assert_eq!(
        inv,
        Mat::from_rows(&[vec![r(-2), r(1)], vec![Rational::from_ratio(3, 2), Rational::from_ratio(-1, 2)]])
    );
    let s = Mat::from_rows(&[vec![r(1), r(2), r(3)], vec![r(2), r(4), r(6)]]);
    let k = s.kernel();
    assert_eq!(k.len(), 2);
    for v in &k {
        let col = Mat::from_cols(3, &[v.clone()]);
        assert!(s.matmul(&col).is_zero());
    }
}
