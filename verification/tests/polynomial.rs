use resolvent::polynomial::Polynomial;
use resolvent::rational::Rational;
use resolvent::algebra::{AlgebraBudget, AlgebraError};

fn r(i: i64) -> Rational {
    Rational::from_i64(i)
}

fn p(cs: &[i64]) -> Polynomial {
    Polynomial::new(cs.iter().map(|&c| r(c)).collect())
}

#[test]
fn construction_and_shape() {
    assert!(Polynomial::zero().is_zero());
    assert_eq!(Polynomial::zero().degree(), None);
    assert_eq!(Polynomial::one().degree(), Some(0));
    assert_eq!(Polynomial::variable().coefficients(), &[r(0), r(1)]);
    assert_eq!(p(&[1, 2, 0, 0]).degree(), Some(1));
    assert_eq!(p(&[1, 2]).leading_coefficient(), Some(&r(2)));
    assert_eq!(Polynomial::zero().leading_coefficient(), None);
}

#[test]
fn ring_operations_and_evaluation() {
    let a = p(&[1, 1]);
    let b = p(&[-1, 1]);
    assert_eq!(a.mul(&b), p(&[-1, 0, 1]));
    assert_eq!(a.add(&b), p(&[0, 2]));
    assert_eq!(a.sub(&a), Polynomial::zero());
    assert_eq!(a.negated(), p(&[-1, -1]));
    assert_eq!(p(&[1, 2, 3]).derivative(), p(&[2, 6]));
    assert_eq!(p(&[1, 2, 3]).evaluate(&r(2)), r(17));
    assert_eq!(p(&[2, 4]).monic(), p(&[1, 2]).monic());
    assert_eq!(p(&[2, 4]).monic().leading_coefficient(), Some(&r(1)));
}

#[test]
fn division_and_gcd() {
    let f = p(&[-1, 0, 1]);
    let g = p(&[1, 1]);
    let (q, rem) = f.div_rem(&g).unwrap();
    assert_eq!(q, p(&[-1, 1]));
    assert!(rem.is_zero());
    let (q2, rem2) = p(&[1, 0, 1]).div_rem(&g).unwrap();
    assert_eq!(q2, p(&[-1, 1]));
    assert_eq!(rem2, p(&[2]));
    assert_eq!(f.div_rem(&Polynomial::zero()), Err(AlgebraError::DivisionByZeroPolynomial));
    assert_eq!(f.gcd(&p(&[2, 2])).unwrap(), p(&[1, 1]));
    assert_eq!(Polynomial::zero().gcd(&Polynomial::zero()).unwrap(), Polynomial::zero());
    assert_eq!(f.resultant(&g, AlgebraBudget::default()).unwrap(), r(0));
}

#[test]
fn sturm_isolation_brackets_each_root() {
    // (x² − 2)(x − 3) = x³ − 3x² − 2x + 6: roots −√2, √2, 3.
    let p = Polynomial::new(vec![
        Rational::from_i64(6),
        Rational::from_i64(-2),
        Rational::from_i64(-3),
        Rational::from_i64(1),
    ]);
    let roots = p.isolate_real_roots(AlgebraBudget::default()).unwrap();
    assert_eq!(roots.len(), 3);
    for r in &roots {
        assert!(r.lower.lt(&r.upper));
        let a = p.evaluate(&r.lower);
        let b = p.evaluate(&r.upper);
        assert!(!Rational::zero().lt(&a.mul(&b)));
    }
    for w in roots.windows(2) {
        assert!(w[0].upper.le(&w[1].lower));
    }
    // A double root counts once: (x − 1)².
    let sq = Polynomial::new(vec![Rational::from_i64(1), Rational::from_i64(-2), Rational::from_i64(1)]);
    assert_eq!(sq.isolate_real_roots(AlgebraBudget::default()).unwrap().len(), 1);
}

#[test]
fn sturm_isolation_edge_cases() {
    assert_eq!(
        Polynomial::zero().isolate_real_roots(AlgebraBudget::default()),
        Err(AlgebraError::ZeroPolynomialRoots)
    );
    assert_eq!(Polynomial::one().isolate_real_roots(AlgebraBudget::default()).unwrap().len(), 0);
    let p = Polynomial::new(vec![Rational::from_i64(6), Rational::from_i64(0), Rational::from_i64(-5), Rational::from_i64(0), Rational::from_i64(1)]);
    let mut budget = AlgebraBudget::default();
    budget.max_root_bisections = 0;
    assert_eq!(
        p.isolate_real_roots(budget),
        Err(AlgebraError::BudgetExceeded { operation: "isolating real roots", limit: 0 })
    );
}

#[test]
fn cancellation_division_reassembles_the_dividend() {
    let f = p(&[1, 3, 0, 2]);
    let g = p(&[-1, 0, 3]);
    let (q, rem) = f.div_rem(&g).unwrap();
    assert_eq!(q.mul(&g).add(&rem), f);
    assert_eq!(rem.degree(), Some(1));
}
