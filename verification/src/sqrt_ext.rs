//! One-root numbers `a + b·√r` over ℚ: same-root arithmetic is a checked
//! condition (`Option` results), and comparison across roots is total,
//! by repeated squaring with no separation bounds.
use vstd::prelude::*;
use core::cmp::Ordering;
use crate::rational::{
    Rational, Q, qint, qadd, qsub, qmul, qdiv, qneg, qabs, qlt, canonical, lemma_reduce_sign, lemma_reduce_value,
};
use crate::uncertain::{Sign, sign_of_int};

verus! {

/// The sign of `a + b·√r` (`r >= 0`), decided by ring operations: the
/// signs of `a` and `b` when they agree or one vanishes, and otherwise the
/// comparison of `a²` with `b²·r`.
pub open spec fn sign_ext(a: Q, b: Q, r: Q) -> Sign {
    let sa = sign_of_int(a.0);
    let sb = sign_of_int(b.0);
    if sb == Sign::Zero {
        sa
    } else if sa == Sign::Zero {
        sb
    } else if sa == sb {
        sa
    } else {
        let a2 = qmul(a, a);
        let b2r = qmul(qmul(b, b), r);
        if qlt(b2r, a2) {
            sa
        } else if qlt(a2, b2r) {
            sb
        } else {
            Sign::Zero
        }
    }
}

/// The normal form of `a + b·√r`: a plain rational when `b` or `r`
/// vanishes.
pub open spec fn normal(a: Q, b: Q, r: Q) -> (Q, Q, Q) {
    if b.0 == 0 || r.0 == 0 {
        (a, qint(0), qint(0))
    } else {
        (a, b, r)
    }
}

/// `a + b·√r` with `r >= 0`; `b == 0` exactly when `r == 0`, the encoding
/// of a plain rational.
#[derive(Debug)]
pub struct SqrtExt {
    a: Rational,
    b: Rational,
    r: Rational,
}

impl View for SqrtExt {
    type V = (Q, Q, Q);

    closed spec fn view(&self) -> (Q, Q, Q) {
        (self.a@, self.b@, self.r@)
    }
}

impl Clone for SqrtExt {
    fn clone(&self) -> (r: Self)
        ensures
            r@ == self@,
    {
        proof {
            use_type_invariant(self);
        }
        SqrtExt { a: self.a.clone(), b: self.b.clone(), r: self.r.clone() }
    }
}

impl SqrtExt {
    #[verifier::type_invariant]
    closed spec fn normalized(self) -> bool {
        self.r@.0 >= 0 && ((self.b@.0 == 0) == (self.r@.0 == 0))
    }

    /// The normalization invariant (a no-op exposing it).
    pub fn is_normalized(&self)
        ensures
            self@.2.0 >= 0,
            (self@.1.0 == 0) == (self@.2.0 == 0),
            canonical(self@.0),
            canonical(self@.1),
            canonical(self@.2),
    {
        proof {
            use_type_invariant(self);
        }
        self.a.lowest_terms();
        self.b.lowest_terms();
        self.r.lowest_terms();
    }

    /// A rational (extension-free) value.
    pub fn rational(a: Rational) -> (r: SqrtExt)
        ensures
            r@ == (a@, qint(0), qint(0)),
    {
        SqrtExt { a, b: Rational::zero(), r: Rational::zero() }
    }

    /// `a + b·√r` for a nonnegative radicand, normalized to a plain
    /// rational when `b` or `r` vanishes.
    pub fn new(a: Rational, b: Rational, r: Rational) -> (s: SqrtExt)
        requires
            r@.0 >= 0,
        ensures
            s@ == normal(a@, b@, r@),
    {
        if b.is_zero() || r.is_zero() {
            SqrtExt::rational(a)
        } else {
            SqrtExt { a, b, r }
        }
    }

    /// Rational part.
    pub fn a(&self) -> (r: &Rational)
        ensures
            r@ == self@.0,
    {
        &self.a
    }

    /// Root coefficient.
    pub fn b(&self) -> (r: &Rational)
        ensures
            r@ == self@.1,
    {
        &self.b
    }

    /// Radicand (zero when the value is rational).
    pub fn root(&self) -> (r: &Rational)
        ensures
            r@ == self@.2,
    {
        &self.r
    }

    /// Is the value extension-free?
    pub fn is_rational(&self) -> (r: bool)
        ensures
            r == (self@.1.0 == 0),
    {
        self.b.is_zero()
    }

    /// Do two values live in the same extension: same radicand, or either
    /// side rational.
    pub open spec fn same_root_spec(&self, rhs: &SqrtExt) -> bool {
        self@.1.0 == 0 || rhs@.1.0 == 0 || self@.2 == rhs@.2
    }

    /// The radicand shared by two values of one extension.
    pub open spec fn unified(&self, rhs: &SqrtExt) -> Q {
        if self@.1.0 == 0 {
            rhs@.2
        } else {
            self@.2
        }
    }

    /// Do two values live in the same extension (same root, or either side
    /// rational)?
    pub fn same_root(&self, rhs: &SqrtExt) -> (r: bool)
        ensures
            r == self.same_root_spec(rhs),
    {
        self.is_rational() || rhs.is_rational() || self.r == rhs.r
    }

    fn unified_root(&self, rhs: &SqrtExt) -> (r: Rational)
        ensures
            r@ == self.unified(rhs),
            r@.0 >= 0,
    {
        self.is_normalized();
        rhs.is_normalized();
        if self.is_rational() {
            rhs.r.clone()
        } else {
            self.r.clone()
        }
    }

    /// Checked addition: `None` if the roots differ.
    pub fn checked_add(&self, rhs: &SqrtExt) -> (r: Option<SqrtExt>)
        ensures
            r is None <==> !self.same_root_spec(rhs),
            r matches Some(s) ==> s@ == normal(qadd(self@.0, rhs@.0), qadd(self@.1, rhs@.1), self.unified(rhs)),
    {
        if !self.same_root(rhs) {
            return None;
        }
        let r = self.unified_root(rhs);
        Some(SqrtExt::new(self.a.add(&rhs.a), self.b.add(&rhs.b), r))
    }

    /// Checked subtraction: `None` if the roots differ.
    pub fn checked_sub(&self, rhs: &SqrtExt) -> (r: Option<SqrtExt>)
        ensures
            r is None <==> !self.same_root_spec(rhs),
            r matches Some(s) ==> s@ == normal(qsub(self@.0, rhs@.0), qsub(self@.1, rhs@.1), self.unified(rhs)),
    {
        if !self.same_root(rhs) {
            return None;
        }
        let r = self.unified_root(rhs);
        Some(SqrtExt::new(self.a.sub(&rhs.a), self.b.sub(&rhs.b), r))
    }

    /// Checked multiplication:
    /// `(a1 + b1√r)(a2 + b2√r) = (a1a2 + b1b2·r) + (a1b2 + b1a2)√r`.
    pub fn checked_mul(&self, rhs: &SqrtExt) -> (r: Option<SqrtExt>)
        ensures
            r is None <==> !self.same_root_spec(rhs),
            r matches Some(s) ==> s@ == normal(
                qadd(qmul(self@.0, rhs@.0), qmul(qmul(self@.1, rhs@.1), self.unified(rhs))),
                qadd(qmul(self@.0, rhs@.1), qmul(self@.1, rhs@.0)),
                self.unified(rhs),
            ),
    {
        if !self.same_root(rhs) {
            return None;
        }
        let r = self.unified_root(rhs);
        let a = self.a.mul(&rhs.a).add(&self.b.mul(&rhs.b).mul(&r));
        let b = self.a.mul(&rhs.b).add(&self.b.mul(&rhs.a));
        Some(SqrtExt::new(a, b, r))
    }

    /// Negation.
    pub fn neg_ext(&self) -> (r: SqrtExt)
        ensures
            r@ == (qneg(self@.0), qneg(self@.1), self@.2),
    {
        self.is_normalized();
        SqrtExt { a: self.a.neg(), b: self.b.neg(), r: self.r.clone() }
    }

    /// The sign of this value (its spec form).
    pub open spec fn sign_spec(&self) -> Sign {
        sign_ext(self@.0, self@.1, self@.2)
    }

    /// Exact sign, by ring operations only (repeated squaring, no
    /// separation bounds).
    pub fn sign(&self) -> (r: Sign)
        ensures
            r == self.sign_spec(),
    {
        let sa = self.a.sign();
        let sb = self.b.sign();
        if sb == Sign::Zero {
            return sa;
        }
        if sa == Sign::Zero {
            return sb;
        }
        if sa == sb {
            return sa;
        }
        let a2 = self.a.mul(&self.a);
        let b2r = self.b.mul(&self.b).mul(&self.r);
        if b2r.lt(&a2) {
            sa
        } else if a2.lt(&b2r) {
            sb
        } else {
            Sign::Zero
        }
    }

    /// Same-root comparison, by the sign of the difference.
    pub fn cmp_same_root(&self, rhs: &SqrtExt) -> (r: Ordering)
        requires
            self.same_root_spec(rhs),
        ensures
            (r == Ordering::Less) == (sign_ext(
                qsub(self@.0, rhs@.0),
                normal(qsub(self@.0, rhs@.0), qsub(self@.1, rhs@.1), self.unified(rhs)).1,
                normal(qsub(self@.0, rhs@.0), qsub(self@.1, rhs@.1), self.unified(rhs)).2,
            ) == Sign::Negative),
            (r == Ordering::Equal) == (sign_ext(
                qsub(self@.0, rhs@.0),
                normal(qsub(self@.0, rhs@.0), qsub(self@.1, rhs@.1), self.unified(rhs)).1,
                normal(qsub(self@.0, rhs@.0), qsub(self@.1, rhs@.1), self.unified(rhs)).2,
            ) == Sign::Zero),
            (r == Ordering::Greater) == (sign_ext(
                qsub(self@.0, rhs@.0),
                normal(qsub(self@.0, rhs@.0), qsub(self@.1, rhs@.1), self.unified(rhs)).1,
                normal(qsub(self@.0, rhs@.0), qsub(self@.1, rhs@.1), self.unified(rhs)).2,
            ) == Sign::Positive),
    {
        match self.checked_sub(rhs) {
            Some(d) => d.sign().as_ordering(),
            None => {
                proof {
                    assert(false);
                }
                Ordering::Equal
            },
        }
    }
}


/// The opposite sign.
pub open spec fn neg_sign(s: Sign) -> Sign {
    match s {
        Sign::Negative => Sign::Positive,
        Sign::Zero => Sign::Zero,
        Sign::Positive => Sign::Negative,
    }
}

/// The sign of `x - y` for one-root numbers `x`, `y` (as `(a, b, r)`):
/// within one extension the sign of the difference; across roots, the
/// comparison of `L = (a1 - a2) + b1√r1` with `R = b2√r2` by signs, and
/// when they agree by the sign of `L² - R²` (one squaring).
pub open spec fn cross_sign(x: (Q, Q, Q), y: (Q, Q, Q)) -> Sign {
    if x.1.0 == 0 || y.1.0 == 0 || x.2 == y.2 {
        let u = if x.1.0 == 0 { y.2 } else { x.2 };
        let d = normal(qsub(x.0, y.0), qsub(x.1, y.1), u);
        sign_ext(d.0, d.1, d.2)
    } else {
        let l = normal(qsub(x.0, y.0), x.1, x.2);
        let sl = sign_ext(l.0, l.1, l.2);
        let sr = sign_of_int(y.1.0);
        if sl == Sign::Zero && sr == Sign::Zero {
            Sign::Zero
        } else if sl == Sign::Zero {
            neg_sign(sr)
        } else if sr == Sign::Zero {
            sl
        } else if sl != sr {
            sl
        } else {
            let l2 = normal(qadd(qmul(l.0, l.0), qmul(qmul(l.1, l.1), l.2)), qadd(qmul(l.0, l.1), qmul(l.1, l.0)), l.2);
            let r2v = qmul(qmul(y.1, y.1), y.2);
            let u = if l2.1.0 == 0 { qint(0) } else { l2.2 };
            let diff = normal(qsub(l2.0, r2v), qsub(l2.1, qint(0)), u);
            let ds = sign_ext(diff.0, diff.1, diff.2);
            if ds == Sign::Zero {
                Sign::Zero
            } else if ds == Sign::Positive {
                sl
            } else {
                neg_sign(sl)
            }
        }
    }
}

impl SqrtExt {
    /// Total comparison across arbitrary roots: the order of the two real
    /// numbers, by the sign of their difference ([`cross_sign`]).
    pub fn cmp_cross(&self, rhs: &SqrtExt) -> (r: Ordering)
        ensures
            (r == Ordering::Less) == (cross_sign(self@, rhs@) == Sign::Negative),
            (r == Ordering::Equal) == (cross_sign(self@, rhs@) == Sign::Zero),
            (r == Ordering::Greater) == (cross_sign(self@, rhs@) == Sign::Positive),
    {
        self.is_normalized();
        rhs.is_normalized();
        if self.same_root(rhs) {
            return self.cmp_same_root(rhs);
        }
        let l = SqrtExt::new(self.a.sub(&rhs.a), self.b.clone(), self.r.clone());
        let sl = l.sign();
        let sr = rhs.b.sign();
        if sl == Sign::Zero && sr == Sign::Zero {
            return Ordering::Equal;
        }
        if sl == Sign::Zero {
            return match sr {
                Sign::Negative => Ordering::Greater,
                Sign::Zero => Ordering::Equal,
                Sign::Positive => Ordering::Less,
            };
        }
        if sr == Sign::Zero {
            return sl.as_ordering();
        }
        if sl != sr {
            return sl.as_ordering();
        }
        let l2 = match l.checked_mul(&l) {
            Some(v) => v,
            None => {
                proof {
                    assert(false);
                }
                return Ordering::Equal;
            },
        };
        let r2v = rhs.b.mul(&rhs.b).mul(&rhs.r);
        let diff = match l2.checked_sub(&SqrtExt::rational(r2v)) {
            Some(v) => v,
            None => {
                proof {
                    assert(false);
                }
                return Ordering::Equal;
            },
        };
        match diff.sign() {
            Sign::Zero => Ordering::Equal,
            Sign::Positive => sl.as_ordering(),
            Sign::Negative => match sl {
                Sign::Negative => Ordering::Greater,
                Sign::Zero => Ordering::Equal,
                Sign::Positive => Ordering::Less,
            },
        }
    }
}


/// `x / y` for one-root numbers of one extension with radicand `u`:
/// multiplication by the conjugate over the norm `a2² - b2²·u`, or, when
/// that norm vanishes (so `√u = |a2 / b2|` is rational), division by the
/// rational value of `y`.
pub open spec fn div_result(x: (Q, Q, Q), y: (Q, Q, Q), u: Q) -> (Q, Q, Q) {
    let norm = qsub(qmul(y.0, y.0), qmul(qmul(y.1, y.1), u));
    if norm.0 == 0 {
        let divisor = qadd(y.0, qmul(y.1, qabs(qdiv(y.0, y.1))));
        normal(qdiv(x.0, divisor), qdiv(x.1, divisor), u)
    } else {
        let c = normal(y.0, qneg(y.1), u);
        let w = if x.1.0 == 0 { c.2 } else { x.2 };
        let num = normal(qadd(qmul(x.0, c.0), qmul(qmul(x.1, c.1), w)), qadd(qmul(x.0, c.1), qmul(x.1, c.0)), w);
        normal(qdiv(num.0, norm), qdiv(num.1, norm), u)
    }
}

impl SqrtExt {
    /// Checked division (multiply by the conjugate): `None` if the roots
    /// differ. The divisor must be nonzero.
    pub fn checked_div(&self, rhs: &SqrtExt) -> (r: Option<SqrtExt>)
        requires
            self.same_root_spec(rhs) ==> rhs.sign_spec() != Sign::Zero,
        ensures
            r is None <==> !self.same_root_spec(rhs),
            r matches Some(s) ==> s@ == div_result(self@, rhs@, self.unified(rhs)),
    {
        if !self.same_root(rhs) {
            return None;
        }
        self.is_normalized();
        rhs.is_normalized();
        let r = self.unified_root(rhs);
        let a2 = &rhs.a;
        let b2 = &rhs.b;
        let sq = a2.mul(a2);
        let bb = b2.mul(b2);
        let bbr = bb.mul(&r);
        let norm = sq.sub(&bbr);
        if norm.is_zero() {
            proof {
                let x = a2@;
                let y = b2@;
                assert(x.1 * x.1 > 0) by (nonlinear_arith)
                    requires
                        x.1 > 0,
                ;
                assert(y.1 * y.1 > 0) by (nonlinear_arith)
                    requires
                        y.1 > 0,
                ;
                lemma_reduce_sign(x.0 * x.0, x.1 * x.1);
                lemma_reduce_sign(y.0 * y.0, y.1 * y.1);
                assert(bb@.1 * r@.1 > 0) by (nonlinear_arith)
                    requires
                        bb@.1 > 0,
                        r@.1 > 0,
                ;
                lemma_reduce_sign(bb@.0 * r@.0, bb@.1 * r@.1);
                assert(sq@.1 * bbr@.1 > 0) by (nonlinear_arith)
                    requires
                        sq@.1 > 0,
                        bbr@.1 > 0,
                ;
                lemma_reduce_sign(sq@.0 * bbr@.1 - bbr@.0 * sq@.1, sq@.1 * bbr@.1);
                assert(sq@.0 * bbr@.1 == bbr@.0 * sq@.1);
                if y.0 == 0 {
                    assert(bb@.0 == 0) by (nonlinear_arith)
                        requires
                            y.0 == 0,
                            (bb@.0 == 0) == (y.0 * y.0 == 0),
                    ;
                    assert(bbr@.0 == 0) by (nonlinear_arith)
                        requires
                            bb@.0 == 0,
                            (bbr@.0 == 0) == (bb@.0 * r@.0 == 0),
                    ;
                    assert(sq@.0 == 0) by (nonlinear_arith)
                        requires
                            sq@.0 * bbr@.1 == bbr@.0 * sq@.1,
                            bbr@.0 == 0,
                            bbr@.1 > 0,
                    ;
                    assert(x.0 == 0) by (nonlinear_arith)
                        requires
                            (sq@.0 == 0) == (x.0 * x.0 == 0),
                            sq@.0 == 0,
                    ;
                    assert(false);
                }
                assert(r@ == rhs@.2);
                if x.0 == 0 {
                    assert(sq@.0 == 0) by (nonlinear_arith)
                        requires
                            x.0 == 0,
                            (sq@.0 == 0) == (x.0 * x.0 == 0),
                    ;
                    assert(bbr@.0 == 0) by (nonlinear_arith)
                        requires
                            sq@.0 * bbr@.1 == bbr@.0 * sq@.1,
                            sq@.0 == 0,
                            sq@.1 > 0,
                    ;
                    assert(bb@.0 != 0) by (nonlinear_arith)
                        requires
                            y.0 != 0,
                            (bb@.0 == 0) == (y.0 * y.0 == 0),
                    ;
                    assert(r@.0 == 0) by (nonlinear_arith)
                        requires
                            bb@.0 != 0,
                            (bbr@.0 == 0) == (bb@.0 * r@.0 == 0),
                            bbr@.0 == 0,
                    ;
                    assert(false);
                }
                assert(!qlt(bbr@, sq@) && !qlt(sq@, bbr@));
                assert(sign_of_int(x.0) == sign_of_int(y.0));
            }
            let f = a2.div(b2);
            let sqrt_r = f.abs();
            let divisor = a2.add(&b2.mul(&sqrt_r));
            proof {
                let x = a2@;
                let y = b2@;
                if y.0 < 0 {
                    assert(x.1 * (-y.0) > 0) by (nonlinear_arith)
                        requires
                            x.1 > 0,
                            y.0 < 0,
                    ;
                    assert(-(x.0 * y.1) > 0) by (nonlinear_arith)
                        requires
                            x.0 < 0,
                            y.1 > 0,
                    ;
                    lemma_reduce_sign(-(x.0 * y.1), x.1 * (-y.0));
                } else {
                    assert(x.1 * y.0 > 0) by (nonlinear_arith)
                        requires
                            x.1 > 0,
                            y.0 > 0,
                    ;
                    assert(x.0 * y.1 > 0) by (nonlinear_arith)
                        requires
                            x.0 > 0,
                            y.1 > 0,
                    ;
                    lemma_reduce_sign(x.0 * y.1, x.1 * y.0);
                }
                assert(f@.0 > 0);
                assert(sqrt_r@ == f@);
                crate::rational::lemma_qdiv_mul_cancel(x, y);
                let p = qmul(y, f@);
                assert(y.1 * f@.1 > 0) by (nonlinear_arith)
                    requires
                        y.1 > 0,
                        f@.1 > 0,
                ;
                lemma_reduce_value(y.0 * f@.0, y.1 * f@.1);
                assert(x.1 * p.1 > 0) by (nonlinear_arith)
                    requires
                        x.1 > 0,
                        p.1 > 0,
                ;
                lemma_reduce_sign(x.0 * p.1 + (-p.0) * x.1, x.1 * p.1);
                assert(x.0 * p.1 + p.0 * x.1 != 0) by (nonlinear_arith)
                    requires
                        x.0 * p.1 + (-p.0) * x.1 == 0,
                        x.0 != 0,
                        p.1 > 0,
                ;
                lemma_reduce_sign(x.0 * p.1 + p.0 * x.1, x.1 * p.1);
                assert(divisor@.0 != 0);
            }
            return Some(SqrtExt::new(self.a.div(&divisor), self.b.div(&divisor), r));
        }
        let conj = SqrtExt::new(a2.clone(), b2.neg(), r.clone());
        let num = match self.checked_mul(&conj) {
            Some(v) => v,
            None => {
                proof {
                    assert(false);
                }
                return None;
            },
        };
        Some(SqrtExt::new(num.a.div(&norm), num.b.div(&norm), r))
    }
}

} // verus!
