//! Field laws of the rationals in lowest terms, as the arithmetic of
//! [`crate::rational`] computes them: every result is again in lowest terms,
//! and sums, differences and products obey the identities that polynomial
//! long division rests on.
use vstd::prelude::*;
use crate::rational::{
    Q, abs, gcd, canonical, reduce, qint, qadd, qsub, qmul, qdiv, qeq, qneg, lemma_gcd_divides, lemma_bezout,
    lemma_reduce_value, lemma_canonical_unique, lemma_reduce_canonical, lemma_reduce_zero,
    lemma_gcd_zero_left,
};

verus! {

/// `reduce` lands in lowest terms.
pub proof fn lemma_reduce_lowest(n: int, d: int)
    requires
        d > 0,
    ensures
        canonical(reduce(n, d)),
{
    let an: nat = abs(n);
    let g = gcd(an, d as nat);
    lemma_gcd_divides(an, d as nat);
    let st = lemma_bezout(an, d as nat);
    vstd::arithmetic::div_mod::lemma_fundamental_div_mod(an as int, g as int);
    vstd::arithmetic::div_mod::lemma_fundamental_div_mod(d, g as int);
    let a = an as int / g as int;
    let e = d / g as int;
    assert(an == g * a);
    assert(d == g * e);
    lemma_reduce_value(n, d);
    let r = reduce(n, d);
    assert(r.1 == e);
    if n >= 0 {
        vstd::arithmetic::div_mod::lemma_div_multiples_vanish(a, g as int);
        assert(r.0 == a);
    } else {
        assert(n == g * (-a)) by (nonlinear_arith)
            requires
                -n == g * a,
        ;
        vstd::arithmetic::div_mod::lemma_div_multiples_vanish(-a, g as int);
        assert(r.0 == -a);
    }
    assert(a >= 0) by (nonlinear_arith)
        requires
            an == g * a,
            g > 0,
    ;
    assert(abs(r.0) == a);
    assert(st.0 * a + st.1 * e == 1) by (nonlinear_arith)
        requires
            st.0 * an + st.1 * d == g,
            an == g * a,
            d == g * e,
            g > 0,
    ;
    let h = gcd(a as nat, e as nat);
    lemma_gcd_divides(a as nat, e as nat);
    vstd::arithmetic::div_mod::lemma_fundamental_div_mod(a, h as int);
    vstd::arithmetic::div_mod::lemma_fundamental_div_mod(e, h as int);
    let x = a / h as int;
    let y = e / h as int;
    assert(h * (st.0 * x + st.1 * y) == 1) by (nonlinear_arith)
        requires
            st.0 * a + st.1 * e == 1,
            a == h * x,
            e == h * y,
    ;
    assert(h == 1) by (nonlinear_arith)
        requires
            h * (st.0 * x + st.1 * y) == 1,
            h > 0,
    ;
}

/// Sums, differences and products are in lowest terms.
pub proof fn lemma_ops_lowest(a: Q, b: Q)
    requires
        a.1 > 0,
        b.1 > 0,
    ensures
        canonical(qadd(a, b)),
        canonical(qsub(a, b)),
        canonical(qmul(a, b)),
        qeq(qadd(a, b), (a.0 * b.1 + b.0 * a.1, a.1 * b.1)),
        qeq(qsub(a, b), (a.0 * b.1 - b.0 * a.1, a.1 * b.1)),
        qeq(qmul(a, b), (a.0 * b.0, a.1 * b.1)),
{
    assert(a.1 * b.1 > 0) by (nonlinear_arith)
        requires
            a.1 > 0,
            b.1 > 0,
    ;
    lemma_reduce_lowest(a.0 * b.1 + b.0 * a.1, a.1 * b.1);
    lemma_reduce_lowest(a.0 * b.1 - b.0 * a.1, a.1 * b.1);
    lemma_reduce_lowest(a.0 * b.0, a.1 * b.1);
    lemma_reduce_value(a.0 * b.1 + b.0 * a.1, a.1 * b.1);
    lemma_reduce_value(a.0 * b.1 - b.0 * a.1, a.1 * b.1);
    lemma_reduce_value(a.0 * b.0, a.1 * b.1);
}

/// Zero is in lowest terms.
pub proof fn lemma_zero_lowest()
    ensures
        canonical(qint(0)),
{
    lemma_gcd_zero_left(1);
}

/// `0 + x == x` and `x + 0 == x`.
pub proof fn lemma_qadd_zero(x: Q)
    requires
        canonical(x),
    ensures
        qadd(qint(0), x) == x,
        qadd(x, qint(0)) == x,
{
    assert(0 * x.1 + x.0 * 1 == x.0);
    assert(x.0 * 1 + 0 * x.1 == x.0);
    assert(1 * x.1 == x.1);
    assert(x.1 * 1 == x.1);
    lemma_reduce_canonical(x);
}

/// `0 · y == 0`.
pub proof fn lemma_qmul_zero_left(y: Q)
    requires
        y.1 > 0,
    ensures
        qmul(qint(0), y) == qint(0),
{
    assert(0 * y.0 == 0);
    assert(1 * y.1 == y.1);
    lemma_reduce_zero(y.1);
}

/// Equal values on positive denominators: the unreduced sums agree too.
#[verifier::rlimit(50)]
proof fn lemma_sum_congr(a: Q, a2: Q, b: Q)
    requires
        a.1 > 0,
        a2.1 > 0,
        b.1 > 0,
        qeq(a, a2),
    ensures
        qeq((a.0 * b.1 + b.0 * a.1, a.1 * b.1), (a2.0 * b.1 + b.0 * a2.1, a2.1 * b.1)),
{
    assert((a.0 * b.1 + b.0 * a.1) * (a2.1 * b.1) == (a2.0 * b.1 + b.0 * a2.1) * (a.1 * b.1))
        by (nonlinear_arith)
        requires
            a.0 * a2.1 == a2.0 * a.1,
    ;
}

/// Two in-lowest-terms values with equal cross products are equal
/// (transitivity through a third fraction with positive denominator).
proof fn lemma_same_value(x: Q, m: Q, y: Q)
    requires
        canonical(x),
        canonical(y),
        m.1 > 0,
        qeq(x, m),
        qeq(y, m),
    ensures
        x == y,
{
    crate::rational::lemma_qeq_trans(x, m, y);
    lemma_canonical_unique(x, y);
}

/// `(c + t) + x == (c + x) + t`.
pub proof fn lemma_qadd_swap(c: Q, t: Q, x: Q)
    requires
        canonical(c),
        canonical(t),
        canonical(x),
    ensures
        qadd(qadd(c, t), x) == qadd(qadd(c, x), t),
{
    let ct = qadd(c, t);
    let cx = qadd(c, x);
    lemma_ops_lowest(c, t);
    lemma_ops_lowest(c, x);
    lemma_ops_lowest(ct, x);
    lemma_ops_lowest(cx, t);
    let uct: Q = (c.0 * t.1 + t.0 * c.1, c.1 * t.1);
    let ucx: Q = (c.0 * x.1 + x.0 * c.1, c.1 * x.1);
    assert(uct.1 > 0 && ucx.1 > 0) by (nonlinear_arith)
        requires
            c.1 > 0,
            t.1 > 0,
            x.1 > 0,
            uct.1 == c.1 * t.1,
            ucx.1 == c.1 * x.1,
    ;
    lemma_sum_congr(ct, uct, x);
    lemma_sum_congr(cx, ucx, t);
    let left: Q = (uct.0 * x.1 + x.0 * uct.1, uct.1 * x.1);
    let right: Q = (ucx.0 * t.1 + t.0 * ucx.1, ucx.1 * t.1);
    lemma_swap_identity(c.0, c.1, t.0, t.1, x.0, x.1);
    assert(left == right);
    assert(left.1 > 0) by (nonlinear_arith)
        requires
            uct.1 > 0,
            x.1 > 0,
            left.1 == uct.1 * x.1,
    ;
    let m: Q = (ct.0 * x.1 + x.0 * ct.1, ct.1 * x.1);
    let m2: Q = (cx.0 * t.1 + t.0 * cx.1, cx.1 * t.1);
    assert(m.1 > 0 && m2.1 > 0) by (nonlinear_arith)
        requires
            ct.1 > 0,
            cx.1 > 0,
            x.1 > 0,
            t.1 > 0,
            m.1 == ct.1 * x.1,
            m2.1 == cx.1 * t.1,
    ;
    crate::rational::lemma_qeq_trans(qadd(ct, x), m, left);
    crate::rational::lemma_qeq_trans(qadd(cx, t), m2, right);
    lemma_same_value(qadd(ct, x), left, qadd(cx, t));
}

/// `(s + t) + (r - t) == s + r`.
pub proof fn lemma_qadd_sub_cancel(s: Q, t: Q, r: Q)
    requires
        canonical(s),
        canonical(t),
        canonical(r),
    ensures
        qadd(qadd(s, t), qsub(r, t)) == qadd(s, r),
{
    let st = qadd(s, t);
    let rt = qsub(r, t);
    lemma_ops_lowest(s, t);
    lemma_ops_lowest(r, t);
    lemma_ops_lowest(s, r);
    lemma_ops_lowest(st, rt);
    let ust: Q = (s.0 * t.1 + t.0 * s.1, s.1 * t.1);
    let urt: Q = (r.0 * t.1 - t.0 * r.1, r.1 * t.1);
    assert(ust.1 > 0 && urt.1 > 0) by (nonlinear_arith)
        requires
            s.1 > 0,
            t.1 > 0,
            r.1 > 0,
            ust.1 == s.1 * t.1,
            urt.1 == r.1 * t.1,
    ;
    // Replace both summands by their unreduced forms.
    lemma_sum_congr(st, ust, rt);
    let mid: Q = (ust.0 * rt.1 + rt.0 * ust.1, ust.1 * rt.1);
    assert(mid == (rt.0 * ust.1 + ust.0 * rt.1, rt.1 * ust.1)) by (nonlinear_arith)
        requires
            mid == (ust.0 * rt.1 + rt.0 * ust.1, ust.1 * rt.1),
    ;
    lemma_sum_congr(rt, urt, ust);
    let full: Q = (urt.0 * ust.1 + ust.0 * urt.1, urt.1 * ust.1);
    let sr: Q = (s.0 * r.1 + r.0 * s.1, s.1 * r.1);
    lemma_cancel_identity(s.0, s.1, t.0, t.1, r.0, r.1);
    assert(qeq(full, sr));
    let first: Q = (st.0 * rt.1 + rt.0 * st.1, st.1 * rt.1);
    assert(first.1 > 0 && mid.1 > 0 && full.1 > 0 && sr.1 > 0) by (nonlinear_arith)
        requires
            st.1 > 0,
            rt.1 > 0,
            ust.1 > 0,
            urt.1 > 0,
            s.1 > 0,
            r.1 > 0,
            first.1 == st.1 * rt.1,
            mid.1 == ust.1 * rt.1,
            full.1 == urt.1 * ust.1,
            sr.1 == s.1 * r.1,
    ;
    crate::rational::lemma_qeq_trans(qadd(st, rt), first, mid);
    crate::rational::lemma_qeq_trans(qadd(st, rt), mid, full);
    crate::rational::lemma_qeq_trans(qadd(st, rt), full, sr);
    lemma_same_value(qadd(st, rt), sr, qadd(s, r));
}

/// `c - (c / l)·l` is zero for a nonzero `l`: the leading term of a
/// division step cancels exactly.
pub proof fn lemma_qsub_quotient_cancels(c: Q, l: Q)
    requires
        canonical(c),
        canonical(l),
        l.0 != 0,
    ensures
        qsub(c, qmul(qdiv(c, l), l)) == qint(0),
        canonical(qdiv(c, l)),
{
    let f = qdiv(c, l);
    if l.0 < 0 {
        assert(c.1 * (-l.0) > 0) by (nonlinear_arith)
            requires
                c.1 > 0,
                l.0 < 0,
        ;
        lemma_reduce_value(-(c.0 * l.1), c.1 * (-l.0));
        lemma_reduce_lowest(-(c.0 * l.1), c.1 * (-l.0));
        assert(f.0 * (c.1 * l.0) == (c.0 * l.1) * f.1) by (nonlinear_arith)
            requires
                f.0 * (c.1 * (-l.0)) == (-(c.0 * l.1)) * f.1,
        ;
    } else {
        assert(c.1 * l.0 > 0) by (nonlinear_arith)
            requires
                c.1 > 0,
                l.0 > 0,
        ;
        lemma_reduce_value(c.0 * l.1, c.1 * l.0);
        lemma_reduce_lowest(c.0 * l.1, c.1 * l.0);
    }
    assert(f.0 * (c.1 * l.0) == (c.0 * l.1) * f.1);
    let m = qmul(f, l);
    lemma_ops_lowest(f, l);
    assert(m.0 * (f.1 * l.1) == (f.0 * l.0) * m.1);
    let z = c.0 * m.1 - m.0 * c.1;
    lemma_quotient_identity(c.0, c.1, l.0, l.1, f.0, f.1, m.0, m.1);
    assert(z * (f.1 * l.1) == 0);
    assert(f.1 * l.1 > 0) by (nonlinear_arith)
        requires
            f.1 > 0,
            l.1 > 0,
    ;
    assert(z == 0) by (nonlinear_arith)
        requires
            z * (f.1 * l.1) == 0,
            f.1 * l.1 > 0,
    ;
    assert(c.1 * m.1 > 0) by (nonlinear_arith)
        requires
            c.1 > 0,
            m.1 > 0,
    ;
    lemma_reduce_zero(c.1 * m.1);
}


/// `((c + t) + x)` and `((c + x) + t)` have the same unreduced fraction.
proof fn lemma_swap_identity(c0: int, c1: int, t0: int, t1: int, x0: int, x1: int)
    ensures
        (c0 * t1 + t0 * c1) * x1 + x0 * (c1 * t1) == (c0 * x1 + x0 * c1) * t1 + t0 * (c1 * x1),
        (c1 * t1) * x1 == (c1 * x1) * t1,
{
    assert((c0 * t1 + t0 * c1) * x1 == c0 * t1 * x1 + t0 * c1 * x1) by (nonlinear_arith);
    assert((c0 * x1 + x0 * c1) * t1 == c0 * x1 * t1 + x0 * c1 * t1) by (nonlinear_arith);
    assert(c0 * t1 * x1 == c0 * x1 * t1) by (nonlinear_arith);
    assert(x0 * (c1 * t1) == x0 * c1 * t1) by (nonlinear_arith);
    assert(t0 * (c1 * x1) == t0 * c1 * x1) by (nonlinear_arith);
    assert((c1 * t1) * x1 == (c1 * x1) * t1) by (nonlinear_arith);
}

/// `(s + t) + (r - t)` has the value of `s + r`, in unreduced fractions.
proof fn lemma_cancel_identity(s0: int, s1: int, t0: int, t1: int, r0: int, r1: int)
    ensures
        ({
            let u0 = s0 * t1 + t0 * s1;
            let u1 = s1 * t1;
            let v0 = r0 * t1 - t0 * r1;
            let v1 = r1 * t1;
            (v0 * u1 + u0 * v1) * (s1 * r1) == (s0 * r1 + r0 * s1) * (v1 * u1)
        }),
{
    let u0 = s0 * t1 + t0 * s1;
    let u1 = s1 * t1;
    let v0 = r0 * t1 - t0 * r1;
    let v1 = r1 * t1;
    let k = t1 * t1;
    let a = s0 * r1 + r0 * s1;
    let b = s1 * r1;
    assert(v0 * u1 == r0 * t1 * s1 * t1 - t0 * r1 * s1 * t1) by (nonlinear_arith)
        requires
            v0 == r0 * t1 - t0 * r1,
            u1 == s1 * t1,
    ;
    assert(u0 * v1 == s0 * t1 * r1 * t1 + t0 * s1 * r1 * t1) by (nonlinear_arith)
        requires
            u0 == s0 * t1 + t0 * s1,
            v1 == r1 * t1,
    ;
    assert(t0 * r1 * s1 * t1 == t0 * s1 * r1 * t1) by (nonlinear_arith);
    assert(r0 * t1 * s1 * t1 == k * (r0 * s1)) by (nonlinear_arith)
        requires
            k == t1 * t1,
    ;
    assert(s0 * t1 * r1 * t1 == k * (s0 * r1)) by (nonlinear_arith)
        requires
            k == t1 * t1,
    ;
    assert(v0 * u1 + u0 * v1 == k * a) by (nonlinear_arith)
        requires
            v0 * u1 == r0 * t1 * s1 * t1 - t0 * r1 * s1 * t1,
            u0 * v1 == s0 * t1 * r1 * t1 + t0 * s1 * r1 * t1,
            t0 * r1 * s1 * t1 == t0 * s1 * r1 * t1,
            r0 * t1 * s1 * t1 == k * (r0 * s1),
            s0 * t1 * r1 * t1 == k * (s0 * r1),
            a == s0 * r1 + r0 * s1,
    ;
    assert(v1 * u1 == k * b) by (nonlinear_arith)
        requires
            v1 == r1 * t1,
            u1 == s1 * t1,
            k == t1 * t1,
            b == s1 * r1,
    ;
    assert((k * a) * b == a * (k * b)) by (nonlinear_arith);
}

/// `c - (c / l)·l` has a vanishing numerator, in unreduced fractions.
proof fn lemma_quotient_identity(c0: int, c1: int, l0: int, l1: int, f0: int, f1: int, m0: int, m1: int)
    requires
        f0 * (c1 * l0) == (c0 * l1) * f1,
        m0 * (f1 * l1) == (f0 * l0) * m1,
    ensures
        (c0 * m1 - m0 * c1) * (f1 * l1) == 0,
{
    assert((c0 * m1 - m0 * c1) * (f1 * l1) == c0 * m1 * (f1 * l1) - c1 * (m0 * (f1 * l1))) by (nonlinear_arith);
    assert(c1 * ((f0 * l0) * m1) == m1 * (f0 * (c1 * l0))) by (nonlinear_arith);
    assert(m1 * ((c0 * l1) * f1) == c0 * m1 * (f1 * l1)) by (nonlinear_arith);
}


/// The square of `a / b` in lowest terms is `a² / b²`.
pub proof fn lemma_square_of_root(x: Q, a: nat, b: nat)
    requires
        canonical(x),
        a * a == x.0,
        b * b == x.1,
    ensures
        canonical(reduce(a as int, b as int)),
        qmul(reduce(a as int, b as int), reduce(a as int, b as int)) == x,
        reduce(a as int, b as int).0 == 0 <==> x.0 == 0,
{
    assert(b > 0) by (nonlinear_arith)
        requires
            b * b == x.1,
            x.1 > 0,
    ;
    let c = reduce(a as int, b as int);
    lemma_reduce_lowest(a as int, b as int);
    lemma_reduce_value(a as int, b as int);
    lemma_ops_lowest(c, c);
    let m = qmul(c, c);
    assert(c.0 * b == a * c.1);
    assert((c.0 * c.0) * (b * b) == (a * a) * (c.1 * c.1)) by (nonlinear_arith)
        requires
            c.0 * b == a * c.1,
    ;
    assert(c.1 * c.1 > 0) by (nonlinear_arith)
        requires
            c.1 > 0,
    ;
    crate::rational::lemma_qeq_trans(m, (c.0 * c.0, c.1 * c.1), x);
    lemma_canonical_unique(m, x);
    if c.0 == 0 {
        assert(c.0 * b == 0) by (nonlinear_arith)
            requires
                c.0 == 0,
        ;
        assert(a * c.1 == 0);
        assert(a == 0) by (nonlinear_arith)
            requires
                a * c.1 == 0,
                c.1 > 0,
        ;
    }
    if x.0 == 0 {
        assert(a == 0) by (nonlinear_arith)
            requires
                a * a == 0,
        ;
        lemma_reduce_zero(b as int);
    }
}

/// `x` has the value `n / d` (for a nonzero `d`).
pub open spec fn has_value(x: Q, n: int, d: int) -> bool {
    x.0 * d == n * x.1
}

/// A rational in lowest terms has its own value.
pub proof fn lemma_has_own_value(x: Q)
    ensures
        has_value(x, x.0, x.1),
{
}

/// Cancel a positive factor from both sides of an equation.
proof fn lemma_cancel_positive(l: int, r: int, k: int)
    requires
        k > 0,
        l * k == r * k,
    ensures
        l == r,
{
    assert(l == r) by (nonlinear_arith)
        requires
            k > 0,
            l * k == r * k,
    ;
}

/// Products multiply values.
pub proof fn lemma_mul_value(x: Q, y: Q, n1: int, d1: int, n2: int, d2: int)
    requires
        x.1 > 0,
        y.1 > 0,
        has_value(x, n1, d1),
        has_value(y, n2, d2),
    ensures
        has_value(qmul(x, y), n1 * n2, d1 * d2),
        canonical(qmul(x, y)),
{
    lemma_ops_lowest(x, y);
    let p = qmul(x, y);
    assert(p.0 * (x.1 * y.1) == (x.0 * y.0) * p.1);
    let l = p.0 * (d1 * d2);
    let r = (n1 * n2) * p.1;
    let k = x.1 * y.1;
    let e1 = p.0 * k;
    let e2 = (x.0 * y.0) * p.1;
    assert(l * k == e1 * (d1 * d2)) by (nonlinear_arith)
        requires
            l == p.0 * (d1 * d2),
            e1 == p.0 * k,
    ;
    assert(e1 * (d1 * d2) == e2 * (d1 * d2));
    assert(e2 * (d1 * d2) == (x.0 * d1) * (y.0 * d2) * p.1) by (nonlinear_arith)
        requires
            e2 == (x.0 * y.0) * p.1,
    ;
    assert((x.0 * d1) * (y.0 * d2) * p.1 == (n1 * x.1) * (n2 * y.1) * p.1);
    assert((n1 * x.1) * (n2 * y.1) * p.1 == r * k) by (nonlinear_arith)
        requires
            r == (n1 * n2) * p.1,
            k == x.1 * y.1,
    ;
    assert(x.1 * y.1 > 0) by (nonlinear_arith)
        requires
            x.1 > 0,
            y.1 > 0,
    ;
    lemma_cancel_positive(l, r, x.1 * y.1);
}

/// `((a - b)·c)·d == a·(c·d) - b·(c·d)`.
proof fn lemma_sub_times(a: int, b: int, c: int, d: int)
    ensures
        ((a - b) * c) * d == a * (c * d) - b * (c * d),
{
    assert(((a - b) * c) * d == a * (c * d) - b * (c * d)) by (nonlinear_arith);
}

/// Reordering a product of five factors.
proof fn lemma_reorder_first(a: int, b: int, c: int, d: int, e: int)
    ensures
        (a * b) * (c * (d * e)) == (a * d) * (b * (e * c)),
{
    assert((a * b) * (c * (d * e)) == (a * d) * (b * (e * c))) by (nonlinear_arith);
}

/// Reordering a product of five factors.
proof fn lemma_reorder_last(a: int, b: int, c: int, d: int, e: int)
    ensures
        (a * b) * (c * (d * e)) == (a * e) * (b * (d * c)),
{
    assert((a * b) * (c * (d * e)) == (a * e) * (b * (d * c))) by (nonlinear_arith);
}

/// Reordering a product of five factors.
proof fn lemma_reorder_out(a: int, b: int, c: int, d: int, e: int)
    ensures
        (a * b) * (c * (d * e)) == (a * d) * (e * (b * c)),
        (a * b) * (c * (d * e)) == (a * d) * (e * (c * b)),
{
    assert((a * b) * (c * (d * e)) == (a * d) * (e * (b * c))) by (nonlinear_arith);
    assert((a * b) * (c * (d * e)) == (a * d) * (e * (c * b))) by (nonlinear_arith);
}

/// Differences subtract values.
pub proof fn lemma_sub_value(x: Q, y: Q, n1: int, d1: int, n2: int, d2: int)
    requires
        x.1 > 0,
        y.1 > 0,
        has_value(x, n1, d1),
        has_value(y, n2, d2),
    ensures
        has_value(qsub(x, y), n1 * d2 - n2 * d1, d1 * d2),
        canonical(qsub(x, y)),
{
    lemma_ops_lowest(x, y);
    let p = qsub(x, y);
    let k = x.1 * y.1;
    let l = p.0 * (d1 * d2);
    let r = (n1 * d2 - n2 * d1) * p.1;
    let e1 = p.0 * k;
    assert(e1 == (x.0 * y.1 - y.0 * x.1) * p.1);
    assert(l * k == e1 * (d1 * d2)) by (nonlinear_arith)
        requires
            l == p.0 * (d1 * d2),
            e1 == p.0 * k,
    ;
    lemma_sub_times(x.0 * y.1, y.0 * x.1, p.1, d1 * d2);
    let t1 = (x.0 * y.1) * (p.1 * (d1 * d2));
    let t2 = (y.0 * x.1) * (p.1 * (d1 * d2));
    assert(l * k == t1 - t2);
    lemma_reorder_first(x.0, y.1, p.1, d1, d2);
    assert(t1 == (x.0 * d1) * (y.1 * (d2 * p.1)));
    assert(t1 == (n1 * x.1) * (y.1 * (d2 * p.1)));
    lemma_reorder_out(n1, x.1, y.1, d2, p.1);
    assert(t1 == (n1 * d2) * (p.1 * k));
    lemma_reorder_last(y.0, x.1, p.1, d1, d2);
    assert(t2 == (y.0 * d2) * (x.1 * (d1 * p.1)));
    assert(t2 == (n2 * y.1) * (x.1 * (d1 * p.1)));
    lemma_reorder_out(n2, y.1, x.1, d1, p.1);
    assert(t2 == (n2 * d1) * (p.1 * k));
    lemma_sub_times(n1 * d2, n2 * d1, p.1, k);
    assert(r * k == (n1 * d2) * (p.1 * k) - (n2 * d1) * (p.1 * k));
    assert(x.1 * y.1 > 0) by (nonlinear_arith)
        requires
            x.1 > 0,
            y.1 > 0,
    ;
    lemma_cancel_positive(l, r, x.1 * y.1);
}

/// Quotients divide values.
pub proof fn lemma_div_value(x: Q, y: Q, n1: int, d1: int, n2: int, d2: int)
    requires
        canonical(x),
        canonical(y),
        y.0 != 0,
        has_value(x, n1, d1),
        has_value(y, n2, d2),
    ensures
        has_value(qdiv(x, y), n1 * d2, d1 * n2),
        canonical(qdiv(x, y)),
{
    lemma_qsub_quotient_cancels(x, y);
    let q = qdiv(x, y);
    let rn = if y.0 < 0 { -(x.0 * y.1) } else { x.0 * y.1 };
    let rd = if y.0 < 0 { x.1 * (-y.0) } else { x.1 * y.0 };
    assert(rd > 0) by (nonlinear_arith)
        requires
            x.1 > 0,
            y.0 != 0,
            rd == (if y.0 < 0 { x.1 * (-y.0) } else { x.1 * y.0 }),
    ;
    lemma_reduce_value(rn, rd);
    assert(q == reduce(rn, rd));
    assert(q.0 * rd == rn * q.1);
    assert(q.0 * (x.1 * y.0) == (x.0 * y.1) * q.1) by (nonlinear_arith)
        requires
            q.0 * rd == rn * q.1,
            rn == (if y.0 < 0 { -(x.0 * y.1) } else { x.0 * y.1 }),
            rd == (if y.0 < 0 { x.1 * (-y.0) } else { x.1 * y.0 }),
    ;
    let l = q.0 * (d1 * n2);
    let r = (n1 * d2) * q.1;
    let k = x.1 * y.0;
    let e1 = q.0 * k;
    let e2 = (x.0 * y.1) * q.1;
    assert(l * k == e1 * (d1 * n2)) by (nonlinear_arith)
        requires
            l == q.0 * (d1 * n2),
            e1 == q.0 * k,
    ;
    assert(e1 * (d1 * n2) == e2 * (d1 * n2));
    assert(e2 * (d1 * n2) == (x.0 * d1) * (y.1 * n2) * q.1) by (nonlinear_arith)
        requires
            e2 == (x.0 * y.1) * q.1,
    ;
    assert((x.0 * d1) * (y.1 * n2) * q.1 == (n1 * x.1) * (y.0 * d2) * q.1);
    assert((n1 * x.1) * (y.0 * d2) * q.1 == r * k) by (nonlinear_arith)
        requires
            r == (n1 * d2) * q.1,
            k == x.1 * y.0,
    ;
    assert(l * k == r * k);
    assert(k != 0) by (nonlinear_arith)
        requires
            x.1 > 0,
            y.0 != 0,
            k == x.1 * y.0,
    ;
    assert(l == r) by (nonlinear_arith)
        requires
            l * k == r * k,
            k != 0,
    ;
}

/// Two rationals in lowest terms with the same value `n / d` (`d` nonzero)
/// are equal.
pub proof fn lemma_same_value_eq(x: Q, y: Q, n: int, d: int)
    requires
        canonical(x),
        canonical(y),
        d != 0,
        has_value(x, n, d),
        has_value(y, n, d),
    ensures
        x == y,
{
    assert(x.0 * y.1 == y.0 * x.1) by (nonlinear_arith)
        requires
            x.0 * d == n * x.1,
            y.0 * d == n * y.1,
            d != 0,
    ;
    lemma_canonical_unique(x, y);
}

/// A value `n / d` is also `n2 / d2` when the fractions agree.
proof fn lemma_value_change(x: Q, n: int, d: int, n2: int, d2: int)
    requires
        x.1 > 0,
        d != 0,
        has_value(x, n, d),
        n * d2 == n2 * d,
    ensures
        has_value(x, n2, d2),
{
    assert((x.0 * d2) * d == (n2 * x.1) * d) by (nonlinear_arith)
        requires
            x.0 * d == n * x.1,
            n * d2 == n2 * d,
    ;
    assert(x.0 * d2 == n2 * x.1) by (nonlinear_arith)
        requires
            (x.0 * d2) * d == (n2 * x.1) * d,
            d != 0,
    ;
}

/// One elimination step of a 2 x 2 determinant: for a nonzero pivot `a`,
/// `a·(d - (c/a)·b) == a·d - b·c`.
pub proof fn lemma_det2_pivot(a: Q, b: Q, c: Q, d: Q)
    requires
        canonical(a),
        canonical(b),
        canonical(c),
        canonical(d),
        a.0 != 0,
    ensures
        qmul(a, qsub(d, qmul(qdiv(c, a), b))) == qsub(qmul(a, d), qmul(b, c)),
        canonical(qsub(qmul(a, d), qmul(b, c))),
{
    let f = qdiv(c, a);
    lemma_div_value(c, a, c.0, c.1, a.0, a.1);
    let fb = qmul(f, b);
    lemma_mul_value(f, b, c.0 * a.1, c.1 * a.0, b.0, b.1);
    let sn1 = (c.0 * a.1) * b.0;
    let sd1 = (c.1 * a.0) * b.1;
    let s1 = qsub(d, fb);
    lemma_sub_value(d, fb, d.0, d.1, sn1, sd1);
    let sn = d.0 * sd1 - sn1 * d.1;
    let sd = d.1 * sd1;
    let lhs = qmul(a, s1);
    lemma_mul_value(a, s1, a.0, a.1, sn, sd);
    let p = qmul(a, d);
    lemma_mul_value(a, d, a.0, a.1, d.0, d.1);
    let q = qmul(b, c);
    lemma_mul_value(b, c, b.0, b.1, c.0, c.1);
    let rhs = qsub(p, q);
    lemma_sub_value(p, q, a.0 * d.0, a.1 * d.1, b.0 * c.0, b.1 * c.1);
    let nr = (a.0 * d.0) * (b.1 * c.1) - (b.0 * c.0) * (a.1 * d.1);
    let dr = (a.1 * d.1) * (b.1 * c.1);
    let nl = a.0 * sn;
    let dl = a.1 * sd;
    assert(sn == a.0 * ((d.0 * c.1) * b.1) - a.1 * ((c.0 * b.0) * d.1)) by (nonlinear_arith)
        requires
            sn == d.0 * sd1 - sn1 * d.1,
            sd1 == (c.1 * a.0) * b.1,
            sn1 == (c.0 * a.1) * b.0,
    ;
    assert(nr == a.0 * ((d.0 * c.1) * b.1) - a.1 * ((c.0 * b.0) * d.1)) by (nonlinear_arith)
        requires
            nr == (a.0 * d.0) * (b.1 * c.1) - (b.0 * c.0) * (a.1 * d.1),
    ;
    assert(sn == nr);
    assert(nl == a.0 * nr);
    assert(dl == a.0 * dr) by (nonlinear_arith)
        requires
            dl == a.1 * sd,
            sd == d.1 * sd1,
            sd1 == (c.1 * a.0) * b.1,
            dr == (a.1 * d.1) * (b.1 * c.1),
    ;
    assert(nl * dr == nr * dl) by (nonlinear_arith)
        requires
            nl == a.0 * nr,
            dl == a.0 * dr,
    ;
    assert(dr > 0) by (nonlinear_arith)
        requires
            a.1 > 0,
            b.1 > 0,
            c.1 > 0,
            d.1 > 0,
            dr == (a.1 * d.1) * (b.1 * c.1),
    ;
    assert(dl != 0) by (nonlinear_arith)
        requires
            dl == a.0 * dr,
            a.0 != 0,
            dr > 0,
    ;
    assert(canonical(s1));
    lemma_value_change(lhs, nl, dl, nr, dr);
    lemma_same_value_eq(lhs, rhs, nr, dr);
}

/// A zero in lowest terms is `0/1`.
pub proof fn lemma_canonical_zero_is_zero(x: Q)
    requires
        canonical(x),
        x.0 == 0,
    ensures
        x == qint(0),
{
    lemma_gcd_zero_left(x.1 as nat);
}

/// `x · 0 == 0`, `0 - 0 == 0`, `1 · x == x`, `x - 0 == x` and `0 / y == 0`.
pub proof fn lemma_small_identities(x: Q, y: Q)
    requires
        canonical(x),
        y.1 > 0,
    ensures
        qmul(x, qint(0)) == qint(0),
        qsub(qint(0), qint(0)) == qint(0),
        qmul(qint(1), x) == x,
        qsub(x, qint(0)) == x,
        y.0 != 0 ==> qdiv(qint(0), y) == qint(0),
{
    assert(x.0 * 0 == 0);
    assert(x.1 * 1 == x.1);
    lemma_reduce_zero(x.1);
    assert(0 * 1 - 0 * 1 == 0);
    lemma_reduce_zero(1);
    assert(1 * x.0 == x.0);
    assert(1 * x.1 == x.1);
    assert(x.0 * 1 - 0 * x.1 == x.0);
    lemma_reduce_canonical(x);
    if y.0 != 0 {
        assert(0 * y.1 == 0);
        if y.0 < 0 {
            assert(-(0 * y.1) == 0);
            assert(1 * (-y.0) > 0);
            lemma_reduce_zero(1 * (-y.0));
        } else {
            assert(1 * y.0 > 0);
            lemma_reduce_zero(1 * y.0);
        }
    }
}

/// After an exchange of rows: `(-1 · c) · b == 0 · d - b · c`.
pub proof fn lemma_det2_exchanged(b: Q, c: Q, d: Q)
    requires
        canonical(b),
        canonical(c),
        canonical(d),
    ensures
        qmul(qmul(qneg(qint(1)), c), b) == qsub(qmul(qint(0), d), qmul(b, c)),
{
    let m1 = qneg(qint(1));
    assert(has_value(m1, -1, 1));
    lemma_mul_value(m1, c, -1, 1, c.0, c.1);
    let nc = qmul(m1, c);
    lemma_mul_value(nc, b, -1 * c.0, 1 * c.1, b.0, b.1);
    let lhs = qmul(nc, b);
    lemma_mul_value(qint(0), d, 0, 1, d.0, d.1);
    lemma_mul_value(b, c, b.0, b.1, c.0, c.1);
    let rhs = qsub(qmul(qint(0), d), qmul(b, c));
    lemma_sub_value(qmul(qint(0), d), qmul(b, c), 0 * d.0, 1 * d.1, b.0 * c.0, b.1 * c.1);
    let nl = (-1 * c.0) * b.0;
    let dl = (1 * c.1) * b.1;
    let nr = (0 * d.0) * (b.1 * c.1) - (b.0 * c.0) * (1 * d.1);
    let dr = (1 * d.1) * (b.1 * c.1);
    assert(nl * dr == nr * dl) by (nonlinear_arith)
        requires
            nl == (-1 * c.0) * b.0,
            dl == (1 * c.1) * b.1,
            nr == (0 * d.0) * (b.1 * c.1) - (b.0 * c.0) * (1 * d.1),
            dr == (1 * d.1) * (b.1 * c.1),
    ;
    assert(dl > 0 && dr > 0) by (nonlinear_arith)
        requires
            b.1 > 0,
            c.1 > 0,
            d.1 > 0,
            dl == (1 * c.1) * b.1,
            dr == (1 * d.1) * (b.1 * c.1),
    ;
    lemma_value_change(lhs, nl, dl, nr, dr);
    lemma_same_value_eq(lhs, rhs, nr, dr);
}

} // verus!
