use resolvent::rational::Rational;
use resolvent::sqrt_ext::SqrtExt;
use resolvent::uncertain::Sign;
use std::cmp::Ordering;

type S = SqrtExt;

fn q(n: i64, d: i64) -> Rational {
    Rational::from_ratio(n, d)
}

fn sqrt_of(r: i64) -> S {
    S::new(q(0, 1), q(1, 1), q(r, 1))
}

#[test]
fn signs() {
    assert_eq!(S::new(q(1, 1), q(-1, 1), q(2, 1)).sign(), Sign::Negative);
    assert_eq!(S::new(q(2, 1), q(-1, 1), q(2, 1)).sign(), Sign::Positive);
    assert_eq!(S::new(q(2, 1), q(-1, 1), q(4, 1)).sign(), Sign::Zero);
}

#[test]
fn cross_root_compare() {
    assert_eq!(sqrt_of(2).cmp_cross(&sqrt_of(3)), Ordering::Less);
    let one_plus_sqrt2 = S::new(q(1, 1), q(1, 1), q(2, 1));
    assert_eq!(one_plus_sqrt2.cmp_cross(&sqrt_of(8)), Ordering::Less);
    assert_eq!(one_plus_sqrt2.cmp_cross(&sqrt_of(5)), Ordering::Greater);
    let l = S::new(q(3, 1), q(2, 1), q(2, 1));
    let r = S::new(q(3, 1), q(1, 1), q(8, 1));
    assert_eq!(l.cmp_cross(&r), Ordering::Equal);
}

#[test]
fn division_conjugate() {
    let x = S::new(q(1, 1), q(1, 1), q(2, 1));
    let one = x.checked_div(&x).unwrap();
    assert_eq!(one.cmp_cross(&S::rational(q(1, 1))), Ordering::Equal);
    let a = S::new(q(3, 1), q(1, 1), q(4, 1));
    let b = S::new(q(1, 1), q(1, 1), q(4, 1));
    let quot = a.checked_div(&b).unwrap();
    assert_eq!(quot.cmp_cross(&S::rational(q(5, 3))), Ordering::Equal);
}

#[test]
fn mixed_roots_checked() {
    assert!(sqrt_of(2).checked_add(&sqrt_of(3)).is_none());
    assert!(sqrt_of(2).checked_add(&S::rational(q(1, 1))).is_some());
}

#[test]
fn normalization_accessors_and_same_root_arithmetic() {
    let x = S::new(q(5, 1), q(0, 1), q(7, 1));
    assert!(x.is_rational());
    assert_eq!(*x.root(), q(0, 1));
    let y = S::new(q(1, 1), q(2, 1), q(3, 1));
    assert_eq!(*y.a(), q(1, 1));
    assert_eq!(*y.b(), q(2, 1));
    assert!(y.same_root(&x));
    let p = y.checked_mul(&y).unwrap();
    assert_eq!(*p.a(), q(13, 1));
    assert_eq!(*p.b(), q(4, 1));
    let d = y.checked_sub(&y).unwrap();
    assert!(d.is_rational());
    assert_eq!(y.neg_ext().sign(), Sign::Negative);
    assert_eq!(y.cmp_same_root(&x), Ordering::Less);
    assert!(sqrt_of(2).checked_mul(&sqrt_of(3)).is_none());
    assert!(sqrt_of(2).checked_div(&sqrt_of(3)).is_none());
}
