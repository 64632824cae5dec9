use resolvent::polymat::{combinations, combinations_with_budget, poly_bits, PolyMat};
use resolvent::ratmat::Mat;
use resolvent::rational::Rational;
use resolvent::roots::QPoly;
use resolvent::algebra::{AlgebraBudget, AlgebraError};

fn r(i: i64) -> Rational {
    Rational::from_i64(i)
}

#[test]
fn pencil_determinant_and_invariant_factors() {
    let b = Mat::from_rows(&[vec![r(0), r(0)], vec![r(0), r(-1)]]);
    let pm = PolyMat::pencil(&Mat::ident(2), &b);
    assert_eq!(pm.det(), QPoly::from_i64s(&[0, -1, 1]));
    let inv = pm.invariant_factors();
    assert_eq!(inv[0], QPoly::from_i64s(&[1]));
    assert_eq!(inv[1], QPoly::from_i64s(&[0, -1, 1]));
}

#[test]
fn a_repeated_eigenvalue_shows_up_in_d1() {
    let pm = PolyMat::pencil(&Mat::ident(2), &Mat::ident(2).scale(&r(-1)));
    let inv = pm.invariant_factors();
    assert_eq!(inv[0], QPoly::from_i64s(&[-1, 1]));
    assert_eq!(inv[1], QPoly::from_i64s(&[-1, 1]));

    let j = Mat::from_rows(&[vec![r(-1), r(1)], vec![r(0), r(-1)]]);
    let pm = PolyMat::pencil(&Mat::ident(2), &j);
    let inv = pm.invariant_factors();
    assert_eq!(inv[0], QPoly::from_i64s(&[1]));
    assert_eq!(inv[1], QPoly::from_i64s(&[1, -2, 1]));
}

#[test]
fn singular_pencil_has_a_zero_determinant() {
    let z = Mat::zeros(2, 2);
    let pm = PolyMat::pencil(&z, &z);
    assert!(pm.det().is_zero());
    assert!(pm.determinantal_divisor(1).is_zero());
    assert!(pm.invariant_factors().iter().all(QPoly::is_zero));
}

#[test]
fn combinations_are_the_k_subsets() {
    assert_eq!(combinations(3, 2), vec![vec![0, 1], vec![0, 2], vec![1, 2]]);
    assert_eq!(combinations(3, 0), vec![Vec::<usize>::new()]);
    assert_eq!(combinations(2, 3).len(), 0);
}

#[test]
fn budgeted_forms_report_their_limits() {
    let small = AlgebraBudget { max_expression_nodes: 2, max_matrix_dimension: 3, max_coefficient_bits: 64, max_root_bisections: 10, max_lazy_nodes: 1_000_000 };
    assert_eq!(combinations_with_budget(4, 2, small), Err(AlgebraError::MatrixDimension { actual: 4, limit: 3 }));
    assert!(matches!(combinations_with_budget(3, 2, small), Err(AlgebraError::BudgetExceeded { .. })));
    assert_eq!(combinations_with_budget(3, 5, small), Ok(vec![]));
    let pm = PolyMat::pencil(&Mat::ident(4), &Mat::zeros(4, 4));
    assert_eq!(PolyMat::pencil_with_budget(&Mat::ident(4), &Mat::zeros(4, 4), small), Err(AlgebraError::MatrixDimension { actual: 4, limit: 3 }));
    assert!(matches!(pm.det_with_budget(small), Err(AlgebraError::MatrixDimension { .. })));
    assert!(matches!(PolyMat::pencil_with_budget(&Mat::ident(2), &Mat::zeros(3, 3), small), Err(AlgebraError::Shape { .. })));
    let fine = AlgebraBudget::default();
    assert_eq!(pm.det_with_budget(fine).unwrap(), QPoly::from_i64s(&[0, 0, 0, 0, 1]));
    assert_eq!(pm.determinantal_divisor_with_budget(2, fine).unwrap(), QPoly::from_i64s(&[0, 0, 1]));
    assert_eq!(pm.invariant_factors_with_budget(fine).unwrap().len(), 4);
}

#[test]
fn minors_and_bit_sizes() {
    let a = Mat::from_rows(&[vec![r(1), r(2)], vec![r(3), r(4)]]);
    let pm = PolyMat::pencil(&Mat::zeros(2, 2), &a);
    assert_eq!(pm.minor(&[0, 1], &[0, 1]), QPoly::from_i64s(&[-2]));
    assert_eq!(pm.minor(&[1], &[0]), QPoly::from_i64s(&[3]));
    assert_eq!(pm.minor(&[], &[]), QPoly::from_i64s(&[1]));
    assert_eq!(*pm.get(1, 1), QPoly::from_i64s(&[4]));
    assert_eq!(poly_bits(&QPoly::zero_poly()), 1);
    assert_eq!(poly_bits(&QPoly::from_i64s(&[1, 7])), 4);
    assert_eq!(pm.max_bits(), 4);
    assert_eq!(pm.determinantal_divisor(0), QPoly::from_i64s(&[1]));
    assert!(pm.determinantal_divisor(3).is_zero());
}

#[test]
fn invariant_factors_come_out_monic() {
    let two = Mat::ident(2).scale(&Rational::from_i64(2));
    let zero = Mat::zeros(2, 2);
    let f = PolyMat::pencil(&two, &zero).invariant_factors();
    assert_eq!(f, vec![QPoly::from_i64s(&[0, 1]), QPoly::from_i64s(&[0, 1])]);
}
