use resolvent::roots::{isolate_roots, isolate_roots_with_budget, sign_radical1, sign_radical2, simplest_rational_in, QPoly, RealRoot, RealRootCertificate, RootError};
use resolvent::rational::Rational;
use resolvent::algebra::AlgebraBudget;
use resolvent::uncertain::Sign;
use std::cmp::Ordering;

fn rat(n: i64, d: i64) -> Rational {
    Rational::from_ratio(n, d)
}

/// `√n` lies in the closed bracket of `r`.
fn brackets_sqrt(r: &RealRoot, n: i64) -> bool {
    let nn = Rational::from_i64(n);
    let zero = Rational::zero();
    let lo_ok = r.lo().lt(&zero) || r.lo().mul(r.lo()).le(&nn);
    let hi_ok = !r.hi().lt(&zero) && nn.le(&r.hi().mul(r.hi()));
    lo_ok && hi_ok
}

#[test]
fn quadratic_sqrt2() {
    // x² − 2: roots ±√2.
    let p = QPoly::from_i64s(&[-2, 0, 1]);
    let mut roots = isolate_roots(&p).unwrap();
    assert_eq!(roots.len(), 2);
    assert_eq!(roots[0].multiplicity(), 1);
    assert!(brackets_sqrt(&roots[1], 2));
    assert!(roots[0].hi().lt(&Rational::zero()));
    // sign_of: x − 1 at √2 is positive; x − 2 negative; x² − 2 zero.
    assert_eq!(roots[1].sign_of(&QPoly::from_i64s(&[-1, 1])), Some(Sign::Positive));
    assert_eq!(roots[1].sign_of(&QPoly::from_i64s(&[-2, 1])), Some(Sign::Negative));
    assert_eq!(roots[1].sign_of(&p), Some(Sign::Zero));
}

#[test]
fn quartic_two_radicals() {
    // (x² − 2)(x² − 3): four roots ±√2, ±√3, ascending.
    let p = QPoly::from_i64s(&[6, 0, -5, 0, 1]);
    let mut roots = isolate_roots(&p).unwrap();
    assert_eq!(roots.len(), 4);
    for w in [3, 2] {
        assert!(roots.iter().any(|r| brackets_sqrt(r, w)));
    }
    for i in 0..3 {
        let (a, b) = roots.split_at_mut(i + 1);
        assert_eq!(a.last_mut().unwrap().cmp_root(&mut b[0]), Some(Ordering::Less));
    }
}

#[test]
fn multiplicities() {
    // (x − 1)²(x + 2): roots −2 (simple), 1 (double).
    let p = QPoly::from_i64s(&[2, -3, 0, 1]);
    let mut roots = isolate_roots(&p).unwrap();
    assert_eq!(roots.len(), 2);
    assert_eq!(roots[0].multiplicity(), 1);
    assert_eq!(roots[1].multiplicity(), 2);
    assert_eq!(roots[0].cmp_rational(&rat(-2, 1)), Some(Ordering::Equal));
    assert_eq!(roots[1].cmp_rational(&rat(1, 1)), Some(Ordering::Equal));
}

#[test]
fn tangency_style_double_quartic() {
    // (x² − 2)²: ±√2 each with multiplicity 2.
    let p = QPoly::from_i64s(&[4, 0, -4, 0, 1]);
    let roots = isolate_roots(&p).unwrap();
    assert_eq!(roots.len(), 2);
    assert!(roots.iter().all(|r| r.multiplicity() == 2));
}

#[test]
fn equality_across_polynomials() {
    // √2 as a root of x² − 2 and of x⁴ − 4 must compare Equal.
    let mut a = isolate_roots(&QPoly::from_i64s(&[-2, 0, 1])).unwrap().pop().unwrap();
    let mut b = isolate_roots(&QPoly::from_i64s(&[-4, 0, 0, 0, 1])).unwrap().pop().unwrap();
    assert_eq!(a.cmp_root(&mut b), Some(Ordering::Equal));
    // And √2 ≠ √3, with the right order.
    let mut c = isolate_roots(&QPoly::from_i64s(&[-3, 0, 1])).unwrap().pop().unwrap();
    assert_eq!(a.cmp_root(&mut c), Some(Ordering::Less));
}

#[test]
fn exact_rational_roots() {
    // (2x − 1)(x² − 5): the rational root 1/2 among irrationals.
    let p = QPoly::new(vec![rat(5, 1), rat(-10, 1), rat(-1, 1), rat(2, 1)]);
    let mut roots = isolate_roots(&p).unwrap();
    assert_eq!(roots.len(), 3);
    assert!(roots.iter_mut().any(|r| r.cmp_rational(&rat(1, 2)) == Some(Ordering::Equal)));
    let exact: Vec<_> = roots.iter().filter_map(|r| r.value()).collect();
    assert_eq!(exact, vec![&rat(1, 2)]);
}

#[test]
fn rational_roots_collapse_to_exact_values() {
    // 16λ³ + 35λ² + 23λ + 4 has the rational root λ = −1.
    let p = QPoly::from_i64s(&[4, 23, 35, 16]);
    let roots = isolate_roots(&p).unwrap();
    let exact: Vec<&Rational> = roots.iter().filter_map(|r| r.value()).collect();
    assert!(exact.contains(&&rat(-1, 1)));
    assert_eq!(exact.len(), 1);
    assert_eq!(roots.len(), 3);

    // Denominators, not just integers: (3x − 2)(5x + 7)(x² − 2).
    let p = QPoly::from_i64s(&[-2, 0, 1])
        .mul_poly(&QPoly::from_i64s(&[-2, 3]))
        .mul_poly(&QPoly::from_i64s(&[7, 5]));
    let roots = isolate_roots(&p).unwrap();
    let exact: Vec<Rational> = roots.iter().filter_map(|r| r.value().cloned()).collect();
    assert_eq!(exact.len(), 2, "2/3 and −7/5 must both collapse");
    assert!(exact.contains(&rat(2, 3)) && exact.contains(&rat(-7, 5)));
    assert_eq!(roots.iter().filter(|r| !r.is_exact()).count(), 2);
}

#[test]
fn simplest_rational_is_the_least_denominator_one() {
    let s = |a: (i64, i64), b: (i64, i64)| simplest_rational_in(&rat(a.0, a.1), &rat(b.0, b.1)).unwrap();
    assert_eq!(s((3, 10), (6, 10)), rat(1, 2));
    assert_eq!(s((-153, 128), (-255, 256)), rat(-1, 1));
    assert_eq!(s((1, 4), (1, 3)), rat(2, 7));
    assert_eq!(s((-1, 3), (1, 7)), rat(0, 1));
    assert_eq!(s((7, 10), (3, 4)), rat(5, 7));
    // Endpoints are excluded: the answer is strictly inside.
    let v = s((1, 2), (2, 3));
    assert!(rat(1, 2).lt(&v) && v.lt(&rat(2, 3)));
    assert_eq!(v, rat(3, 5));
    // Empty and degenerate intervals have no answer.
    assert!(simplest_rational_in(&rat(1, 2), &rat(1, 2)).is_none());
    assert!(simplest_rational_in(&rat(1, 1), &rat(0, 1)).is_none());
}

#[test]
fn collapse_never_fabricates_a_root() {
    // An irrational root must survive `collapse_if_rational` as a bracket.
    let mut r = isolate_roots(&QPoly::from_i64s(&[-2, 0, 1])).unwrap().pop().unwrap();
    assert!(!r.is_exact());
    assert!(!r.collapse_if_rational());
    assert!(!r.is_exact());
    assert!(brackets_sqrt(&r, 2));
}

#[test]
fn constants_and_zero() {
    assert!(matches!(isolate_roots(&QPoly::zero_poly()), Err(RootError::ZeroPolynomial)));
    assert_eq!(isolate_roots(&QPoly::from_i64s(&[7])).unwrap().len(), 0);
    // Linear: exactly one root, found exactly or isolated.
    let mut r = isolate_roots(&QPoly::from_i64s(&[-3, 2])).unwrap().pop().unwrap();
    assert_eq!(r.cmp_rational(&rat(3, 2)), Some(Ordering::Equal));
}

#[test]
fn cmp_rational_thresholds() {
    let mut sqrt2 = isolate_roots(&QPoly::from_i64s(&[-2, 0, 1])).unwrap().pop().unwrap();
    assert_eq!(sqrt2.cmp_rational(&rat(1, 1)), Some(Ordering::Greater));
    assert_eq!(sqrt2.cmp_rational(&rat(2, 1)), Some(Ordering::Less));
    assert_eq!(sqrt2.cmp_rational(&rat(141421356, 100000000)), Some(Ordering::Greater));
    assert_eq!(sqrt2.cmp_rational(&rat(141421357, 100000000)), Some(Ordering::Less));
}

#[test]
fn exact_rational_realroot() {
    let mut r = RealRoot::exact_rational(rat(3, 2));
    assert_eq!(r.value(), Some(&rat(3, 2)));
    assert_eq!(r.cmp_rational(&rat(3, 2)), Some(Ordering::Equal));
    let mut s = isolate_roots(&QPoly::from_i64s(&[-2, 0, 1])).unwrap().pop().unwrap();
    assert_eq!(r.cmp_root(&mut s), Some(Ordering::Greater)); // 1.5 > √2
}

#[test]
fn close_roots_separate() {
    // (x² − 2)(100x − 141)(100x − 142): rationals hugging √2.
    let sqrt2 = QPoly::from_i64s(&[-2, 0, 1]);
    let p = sqrt2
        .mul_poly(&QPoly::from_i64s(&[-141, 100]))
        .mul_poly(&QPoly::from_i64s(&[-142, 100]));
    let mut roots = isolate_roots(&p).unwrap();
    assert_eq!(roots.len(), 4);
    for i in 0..roots.len() - 1 {
        let (a, b) = roots.split_at_mut(i + 1);
        assert_eq!(a.last_mut().unwrap().cmp_root(&mut b[0]), Some(Ordering::Less));
    }
}

#[test]
fn a_tiny_budget_is_reported() {
    // (x² − 2)(x² − 3) needs bisections to separate its four roots.
    let p = QPoly::from_i64s(&[6, 0, -5, 0, 1]);
    let mut budget = AlgebraBudget::default();
    budget.max_root_bisections = 0;
    assert_eq!(isolate_roots_with_budget(&p, budget).err(), Some(RootError::BudgetExceeded { limit: 0 }));
}

#[test]
fn roots_are_returned_in_ascending_brackets() {
    let p = QPoly::from_i64s(&[6, 0, -5, 0, 1]);
    let roots = isolate_roots(&p).unwrap();
    for w in roots.windows(2) {
        assert!(w[0].hi().le(w[1].lo()));
    }
}

#[test]
fn refine_halves_toward_the_root() {
    let mut r = isolate_roots(&QPoly::from_i64s(&[-2, 0, 1])).unwrap().pop().unwrap();
    let (lo, hi) = (r.lo().clone(), r.hi().clone());
    r.refine();
    let w0 = hi.sub(&lo);
    let w1 = r.hi().sub(r.lo());
    assert_eq!(w1.mul(&rat(2, 1)), w0);
    assert!(brackets_sqrt(&r, 2));
    // A point bracket does not move.
    let mut e = RealRoot::exact_rational(rat(5, 3));
    e.refine();
    assert_eq!(e.value(), Some(&rat(5, 3)));
}

#[test]
fn certificates_round_trip_and_are_validated() {
    let r = isolate_roots(&QPoly::from_i64s(&[-2, 0, 1])).unwrap().pop().unwrap();
    let c = r.certificate();
    let back = RealRoot::from_certificate(c).unwrap();
    assert_eq!(back.lo(), r.lo());
    assert_eq!(back.hi(), r.hi());
    assert_eq!(back.multiplicity(), 1);
    let bad = |poly: QPoly, lower: Rational, upper: Rational, multiplicity: u32| {
        RealRoot::from_certificate(RealRootCertificate { polynomial: poly, lower, upper, multiplicity }).is_err()
    };
    let p = QPoly::from_i64s(&[-2, 0, 1]);
    assert!(bad(QPoly::zero_poly(), rat(1, 1), rat(2, 1), 1));
    assert!(bad(p.clone(), rat(1, 1), rat(2, 1), 0));
    assert!(bad(p.clone(), rat(2, 1), rat(1, 1), 1));
    assert!(bad(p.clone(), rat(1, 1), rat(1, 1), 1));
    assert!(bad(QPoly::from_i64s(&[-1, 1]), rat(1, 1), rat(2, 1), 1));
    assert!(bad(p.clone(), rat(-2, 1), rat(2, 1), 1));
    assert!(!bad(p.clone(), rat(1, 1), rat(2, 1), 1));
    assert!(!bad(QPoly::from_i64s(&[-1, 1]), rat(1, 1), rat(1, 1), 1));
}

#[test]
fn is_root_of_by_gcd_and_by_value() {
    let sqrt2 = isolate_roots(&QPoly::from_i64s(&[-2, 0, 1])).unwrap().pop().unwrap();
    assert!(sqrt2.is_root_of(&QPoly::from_i64s(&[-4, 0, 0, 0, 1])));
    assert!(!sqrt2.is_root_of(&QPoly::from_i64s(&[-3, 0, 1])));
    assert!(sqrt2.is_root_of(&QPoly::zero_poly()));
    let one = RealRoot::exact_rational(rat(1, 1));
    assert!(one.is_root_of(&QPoly::from_i64s(&[-1, 0, 1])));
    assert!(!one.is_root_of(&QPoly::from_i64s(&[1, 1])));
}

#[test]
fn multiplicity_of_at_a_root() {
    // (x−1)³(x²−2): ξ = √2 is simple in x² − 2, and 1 is a triple root of (x − 1)³.
    let cube = QPoly::from_i64s(&[-1, 1]);
    let cube = cube.mul_poly(&cube).mul_poly(&QPoly::from_i64s(&[-1, 1]));
    let mut sqrt2 = isolate_roots(&QPoly::from_i64s(&[-2, 0, 1])).unwrap().pop().unwrap();
    assert_eq!(sqrt2.multiplicity_of(&cube), Some(0));
    assert_eq!(sqrt2.multiplicity_of(&QPoly::from_i64s(&[-2, 0, 1])), Some(1));
    let mut one = RealRoot::exact_rational(rat(1, 1));
    assert_eq!(one.multiplicity_of(&cube), Some(3));
    assert_eq!(one.multiplicity_of(&QPoly::zero_poly()), Some(u32::MAX));
}

#[test]
fn bisection_keeps_the_sign_change() {
    // x² − 2 changes sign across (1, 2); every refinement keeps a sign change
    // (or lands exactly on a root).
    let p = QPoly::from_i64s(&[-2, 0, 1]);
    let mut r = RealRoot::from_certificate(RealRootCertificate {
        polynomial: p.clone(),
        lower: rat(1, 1),
        upper: rat(2, 1),
        multiplicity: 1,
    })
    .unwrap();
    for _ in 0..20 {
        r.refine();
        assert!(!r.is_exact());
        assert_ne!(p.sign_at(r.lo()), p.sign_at(r.hi()));
        assert_ne!(p.sign_at(r.lo()), Sign::Zero);
    }
}

#[test]
fn radical_sign_ladders() {
    // ξ = √2.
    let mut xi = isolate_roots(&QPoly::from_i64s(&[-2, 0, 1])).unwrap().pop().unwrap();
    let x = QPoly::from_i64s(&[0, 1]);
    let one = QPoly::from_i64s(&[1]);
    // −ξ + √(ξ²) = 0.
    assert_eq!(sign_radical1(&mut xi, &x.scale(&rat(-1, 1)), &one, &x.mul_poly(&x)), Some(Sign::Zero));
    // −1 + √ξ > 0 (√√2 ≈ 1.19).
    assert_eq!(sign_radical1(&mut xi, &QPoly::from_i64s(&[-1]), &one, &x), Some(Sign::Positive));
    // 2 − √ξ > 0; 1.18 − √ξ < 0.
    assert_eq!(sign_radical1(&mut xi, &QPoly::from_i64s(&[2]), &one.scale(&rat(-1, 1)), &x), Some(Sign::Positive));
    assert_eq!(
        sign_radical1(&mut xi, &QPoly::new(vec![rat(118, 100)]), &one.scale(&rat(-1, 1)), &x),
        Some(Sign::Negative)
    );
    // √ξ − √ξ = 0 (two radicals, same radicand).
    assert_eq!(
        sign_radical2(&mut xi, &QPoly::zero_poly(), &one, &x, &one.scale(&rat(-1, 1)), &x),
        Some(Sign::Zero)
    );
    // 1 + √ξ − √(2ξ) > 0 (≈ 0.507).
    assert_eq!(
        sign_radical2(&mut xi, &one, &one, &x, &one.scale(&rat(-1, 1)), &x.scale(&rat(2, 1))),
        Some(Sign::Positive)
    );
    // −1 + √ξ − √(2ξ) < 0.
    assert_eq!(
        sign_radical2(&mut xi, &one.scale(&rat(-1, 1)), &one, &x, &one.scale(&rat(-1, 1)), &x.scale(&rat(2, 1))),
        Some(Sign::Negative)
    );
}

#[test]
fn radical_signs_at_an_exact_point() {
    // ξ = 4: 1 − √ξ = −1 < 0; −2 + √ξ = 0; 3 − √ξ + √(ξ/4) = 2 > 0.
    let mut xi = RealRoot::exact_rational(rat(4, 1));
    let x = QPoly::from_i64s(&[0, 1]);
    let one = QPoly::from_i64s(&[1]);
    let minus = one.scale(&rat(-1, 1));
    assert_eq!(sign_radical1(&mut xi, &one, &minus, &x), Some(Sign::Negative));
    assert_eq!(sign_radical1(&mut xi, &QPoly::from_i64s(&[-2]), &one, &x), Some(Sign::Zero));
    assert_eq!(
        sign_radical2(&mut xi, &QPoly::from_i64s(&[3]), &minus, &x, &one, &x.scale(&rat(1, 4))),
        Some(Sign::Positive)
    );
}

#[test]
fn root_errors_have_messages() {
    assert_eq!(RootError::ZeroPolynomial.to_string(), "zero polynomial has no isolated roots");
    assert_eq!(
        RootError::BudgetExceeded { limit: 12 }.to_string(),
        "root isolation exceeded bisection budget 12"
    );
}

#[test]
fn refining_to_a_width_narrows_the_bracket() {
    let p = QPoly::from_i64s(&[-2, 0, 1]);
    let mut roots = isolate_roots(&p).unwrap();
    let width = Rational::from_ratio(1, 1000);
    let before_lo = roots[1].lo().clone();
    let before_hi = roots[1].hi().clone();
    roots[1].refine_to_width(&width);
    assert!(roots[1].hi().sub(roots[1].lo()).lt(&width));
    assert!(brackets_sqrt(&roots[1], 2));
    assert!(before_lo.le(roots[1].lo()));
    assert!(roots[1].hi().le(&before_hi));
    // an exact root stays put
    let q = QPoly::from_i64s(&[-1, 1]);
    let mut exact = isolate_roots(&q).unwrap();
    exact[0].refine_to_width(&width);
    assert!(exact[0].is_exact());
}

#[test]
fn open_brackets_straddle_a_sign_change() {
    for poly in [QPoly::from_i64s(&[-2, 0, 1]), QPoly::from_i64s(&[1, -3, 0, 1])] {
        let roots = isolate_roots(&poly).unwrap();
        assert!(!roots.is_empty());
        for r in &roots {
            if !r.is_exact() {
                let d = r.defining_poly();
                let sl = d.sign_at(r.lo());
                let sh = d.sign_at(r.hi());
                assert_ne!(sl, Sign::Zero);
                assert_ne!(sh, Sign::Zero);
                assert_ne!(sl, sh);
                assert!(RealRoot::from_certificate(r.certificate()).is_ok());
            }
        }
    }
    // Nonzero ends of one sign: refused even before the Descartes count.
    let p = QPoly::from_i64s(&[-2, 0, 1]);
    assert!(RealRoot::from_certificate(RealRootCertificate {
        polynomial: p,
        lower: rat(2, 1),
        upper: rat(3, 1),
        multiplicity: 1
    })
    .is_err());
}
