use resolvent::algebra::{AlgebraBudget, AlgebraError};
use resolvent::lazy_real::{Real, RealArena};
use resolvent::rational::Rational;
use resolvent::uncertain::Sign;
use core::cmp::Ordering;

fn q(n: i64, d: i64) -> Rational {
    Rational::from_ratio(n, d)
}

#[test]
fn exact_zero_detected() {
    let mut arena = RealArena::new();
    let a = Real::from_exact(&mut arena, q(3, 2));
    let b = Real::from_exact(&mut arena, q(9, 4));
    let c = Real::from_exact(&mut arena, q(15, 4));
    let s = a.add(&b, &mut arena);
    let x = s.sub(&c, &mut arena);
    assert_eq!(x.sign(&arena), Sign::Zero);
    assert!(x.exact(&arena).is_zero());
}

#[test]
fn tenths_cancel_exactly() {
    let mut arena = RealArena::new();
    let a = Real::from_exact(&mut arena, q(1, 10));
    let b = Real::from_exact(&mut arena, q(2, 10));
    let c = Real::from_exact(&mut arena, q(3, 10));
    let s = a.add(&b, &mut arena);
    let x = s.sub(&c, &mut arena);
    assert_eq!(x.sign(&arena), Sign::Zero);
    let y = s.sub(&b, &mut arena);
    assert_eq!(y.cmp_real(&a, &arena), Ordering::Equal);
}

#[test]
fn identity_shortcut_compares_equal() {
    let mut arena = RealArena::new();
    let a = Real::from_exact(&mut arena, q(1, 10));
    let b = Real::from_exact(&mut arena, q(3, 10));
    let x = a.div(&b, &mut arena);
    assert!(x.same_handle(&x));
    assert_eq!(x.cmp_real(&x, &arena), Ordering::Equal);
    assert_eq!(x.cmp_real(&a, &arena), Ordering::Greater);
    assert_eq!(a.cmp_real(&x, &arena), Ordering::Less);
    assert_eq!(x.exact(&arena), q(1, 3));
}

#[test]
fn deep_chain_evaluates_iteratively() {
    let mut arena = RealArena::new();
    let one = Real::from_exact(&mut arena, Rational::one());
    let mut x = one;
    for _ in 0..200_000 {
        x = x.add(&one, &mut arena);
    }
    assert_eq!(x.sign(&arena), Sign::Positive);
    assert_eq!(x.exact(&arena), Rational::from_i64(200_001));
}

#[test]
fn budget_counts_each_shared_node_once() {
    let mut arena = RealArena::new();
    let a = Real::from_exact(&mut arena, q(1, 3));
    let d = a.add(&a, &mut arena);
    let e = d.mul(&d, &mut arena);
    let mut budget = AlgebraBudget::default();
    budget.max_lazy_nodes = 3;
    assert_eq!(e.exact_with_budget(&arena, budget).unwrap(), q(4, 9));
    budget.max_lazy_nodes = 2;
    assert_eq!(
        e.exact_with_budget(&arena, budget),
        Err(AlgebraError::BudgetExceeded { operation: "forcing a lazy exact DAG", limit: 2 })
    );
    assert_eq!(a.exact_with_budget(&arena, budget).unwrap(), q(1, 3));
}

#[test]
fn min_max_and_abs() {
    let mut arena = RealArena::new();
    let a = Real::from_exact(&mut arena, q(-2, 3));
    let b = Real::from_exact(&mut arena, q(1, 4));
    let m = a.min_real(&b, &mut arena);
    let n = a.max_real(&b, &mut arena);
    assert_eq!(m.exact(&arena), q(-2, 3));
    assert_eq!(n.exact(&arena), q(1, 4));
    let same = a.min_real(&a, &mut arena);
    assert!(same.same_handle(&a));
    let abs = a.abs(&mut arena);
    assert_eq!(abs.exact(&arena), q(2, 3));
    assert_eq!(abs.cmp_real(&n, &arena), Ordering::Greater);
}
