use resolvent::roots::QPoly;
use resolvent::rational::Rational;
use resolvent::algebra::{AlgebraBudget, AlgebraError};
use resolvent::uncertain::Sign;

fn rat(n: i64, d: i64) -> Rational {
    Rational::from_ratio(n, d)
}

#[test]
fn polynomial_division_gcd_and_square_root() {
    let x2m2 = QPoly::from_i64s(&[-2, 0, 1]);
    let x2m3 = QPoly::from_i64s(&[-3, 0, 1]);
    let p = x2m2.mul_poly(&x2m3);
    let (q, r) = p.div_rem(&x2m2).unwrap();
    assert!(r.is_zero());
    assert_eq!(q, x2m3);
    assert!(x2m2.divides(&p));
    assert!(!x2m2.divides(&QPoly::from_i64s(&[1, 1])));
    assert!(p.div_rem(&QPoly::zero_poly()).is_none());
    assert_eq!(x2m2.gcd(&p), x2m2);
    assert_eq!(QPoly::from_i64s(&[-4, 0, 2]).monic(), x2m2);

    assert_eq!(x2m2.mul_poly(&x2m2).sqrt_exact(), Some(x2m2.clone()));
    assert_eq!(p.sqrt_exact(), None);
    assert_eq!(QPoly::from_i64s(&[9]).sqrt_exact(), Some(QPoly::from_i64s(&[3])));
    assert_eq!(QPoly::from_i64s(&[2]).sqrt_exact(), None);
    assert_eq!(QPoly::zero_poly().sqrt_exact(), Some(QPoly::zero_poly()));
    let sq = QPoly::from_i64s(&[-1, 1]);
    assert_eq!(sq.mul_poly(&sq).scale(&rat(4, 1)).sqrt_exact(), Some(QPoly::from_i64s(&[-2, 2])));
    assert_eq!(sq.mul_poly(&sq).scale(&rat(2, 1)).sqrt_exact(), None);
}

#[test]
fn arithmetic_evaluation_and_derivative() {
    let p = QPoly::from_i64s(&[1, -3, 0, 2, 0, 0]);
    assert_eq!(p.degree(), Some(3));
    assert_eq!(p.coefficients().len(), 4);
    assert_eq!(p.coeff(1), rat(-3, 1));
    assert_eq!(p.coeff(9), rat(0, 1));
    assert_eq!(p.eval(&rat(2, 1)), rat(11, 1));
    assert_eq!(p.sign_at(&rat(1, 2)), Sign::Negative);
    assert_eq!(p.derivative(), QPoly::from_i64s(&[-3, 0, 6]));
    assert_eq!(p.add_poly(&QPoly::from_i64s(&[0, 0, 0, -2])), QPoly::from_i64s(&[1, -3]));
    assert_eq!(p.sub_poly(&p), QPoly::zero_poly());
    assert!(QPoly::zero_poly().is_zero());
    assert_eq!(QPoly::zero_poly().degree(), None);
    assert_eq!(QPoly::from_i64s(&[5]).derivative(), QPoly::zero_poly());
}

#[test]
fn square_free_data() {
    let x1 = QPoly::from_i64s(&[-1, 1]);
    let p = x1.mul_poly(&x1).mul_poly(&QPoly::from_i64s(&[2, 1]));
    assert_eq!(p.square_free_part().monic(), x1.mul_poly(&QPoly::from_i64s(&[2, 1])).monic());
    let d = p.square_free_decomposition();
    assert_eq!(d, vec![(1, QPoly::from_i64s(&[2, 1])), (2, x1.clone())]);
    assert!(QPoly::from_i64s(&[3]).square_free_decomposition().is_empty());
}

#[test]
fn resultants() {
    let budget = AlgebraBudget::default();
    let a = QPoly::from_i64s(&[-2, 0, 1]);
    let b = QPoly::from_i64s(&[-1, 1]);
    assert_eq!(a.resultant(&b, budget).unwrap(), rat(-1, 1));
    assert_eq!(a.resultant(&QPoly::zero_poly(), budget).unwrap(), rat(0, 1));
    assert_eq!(QPoly::from_i64s(&[3]).resultant(&QPoly::from_i64s(&[5]), budget).unwrap(), rat(1, 1));
    let tiny = AlgebraBudget { max_expression_nodes: 10, max_matrix_dimension: 2, max_coefficient_bits: 64, max_root_bisections: 1, max_lazy_nodes: 1_000_000 };
    assert_eq!(a.resultant(&a, tiny), Err(AlgebraError::ResultantDimension { actual: 4, limit: 2 }));
}

#[test]
fn division_reassembles_the_dividend() {
    // (2x^3 + 3x + 1) / (3x^2 - 1): quotient (2/3)x, remainder (11/3)x + 1.
    let p = QPoly::from_i64s(&[1, 3, 0, 2]);
    let d = QPoly::from_i64s(&[-1, 0, 3]);
    let (q, r) = p.div_rem(&d).unwrap();
    assert_eq!(q, QPoly::new(vec![Rational::zero(), rat(2, 3)]));
    assert_eq!(r, QPoly::new(vec![Rational::one(), rat(11, 3)]));
    assert_eq!(q.mul_poly(&d).add_poly(&r), p);
    assert!(!d.divides(&p));
}
