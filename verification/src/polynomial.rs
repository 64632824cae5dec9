//! Univariate rational polynomials with Sturm-sequence real-root
//! isolation.
use vstd::prelude::*;
use crate::algebra::{AlgebraBudget, AlgebraError};
use crate::rational::{Rational, Q, qint, qadd, qneg, qmul, qdiv, qabs, qlt, qle, canonical, lemma_qdiv_mul_cancel, lemma_qdiv_self};
use crate::ratmat::qs;
use crate::roots::{QPoly, coef, trim, trimmed, lemma_trim, horner, poly_add, poly_mul, poly_deriv, max_len, apart, var_state, variations_spec, remainder_sequence, euclid_last_remainder};
use crate::uncertain::Sign;
use crate::qfield::lemma_qsub_quotient_cancels;
use crate::polydiv::{cancel_state, shifted_term, lemma_cancel_start, lemma_cancel_step, lemma_cancel_result};

verus! {

/// Coefficient-wise negation.
pub open spec fn poly_neg(a: Seq<Q>) -> Seq<Q> {
    trim(a.map_values(|c: Q| qneg(c)))
}

/// Every coefficient divided by the leading one (the zero polynomial is
/// fixed).
pub open spec fn poly_div_lead(a: Seq<Q>) -> Seq<Q> {
    if a.len() == 0 {
        a
    } else {
        trim(a.map_values(|c: Q| qdiv(c, a.last())))
    }
}

/// A polynomial over ℚ with its coefficients low-to-high and no trailing
/// zero.
#[derive(Clone, Debug, PartialEq, Eq)]
pub struct Polynomial {
    poly: QPoly,
}

/// An interval `[lower, upper]` isolating one real root.
#[derive(Clone, Debug, PartialEq, Eq)]
pub struct RootInterval {
    pub lower: Rational,
    pub upper: Rational,
}

impl View for Polynomial {
    type V = Seq<Q>;

    closed spec fn view(&self) -> Seq<Q> {
        self.poly@
    }
}

impl Polynomial {
    /// The coefficient list has no trailing zero.
    pub fn is_trimmed(&self)
        ensures
            trimmed(self@),
    {
        self.poly.is_trimmed();
    }

    /// A copy with the same coefficients.
    fn duplicate(&self) -> (r: Polynomial)
        ensures
            r@ == self@,
    {
        Polynomial { poly: self.poly.clone() }
    }

    /// From low-to-high coefficients; trailing zeros are trimmed.
    pub fn new(coefficients: Vec<Rational>) -> (r: Polynomial)
        ensures
            r@ == trim(qs(coefficients@)),
    {
        Polynomial { poly: QPoly::new(coefficients) }
    }

    /// The zero polynomial.
    pub fn zero() -> (r: Polynomial)
        ensures
            r@ == Seq::<Q>::empty(),
    {
        Polynomial { poly: QPoly::zero_poly() }
    }

    /// The constant `1`.
    pub fn one() -> (r: Polynomial)
        ensures
            r@ == seq![qint(1)],
    {
        let mut v: Vec<Rational> = Vec::new();
        v.push(Rational::one());
        proof {
            assert(qs(v@) =~= seq![qint(1)]);
            lemma_trim(seq![qint(1)]);
        }
        Polynomial::new(v)
    }

    /// The variable `x`.
    pub fn variable() -> (r: Polynomial)
        ensures
            r@ == seq![qint(0), qint(1)],
    {
        let mut v: Vec<Rational> = Vec::new();
        v.push(Rational::zero());
        v.push(Rational::one());
        proof {
            assert(qs(v@) =~= seq![qint(0), qint(1)]);
            lemma_trim(seq![qint(0), qint(1)]);
        }
        Polynomial::new(v)
    }

    /// Low-to-high coefficients.
    pub fn coefficients(&self) -> (r: &[Rational])
        ensures
            qs(r@) == self@,
    {
        self.poly.coefficients()
    }

    /// Is this the zero polynomial?
    pub fn is_zero(&self) -> (r: bool)
        ensures
            r == (self@.len() == 0),
    {
        self.poly.is_zero()
    }

    /// Degree; `None` for the zero polynomial.
    pub fn degree(&self) -> (r: Option<usize>)
        ensures
            self@.len() == 0 ==> r is None,
            self@.len() > 0 ==> r == Some((self@.len() - 1) as usize),
    {
        self.poly.degree()
    }

    /// The leading coefficient; `None` for the zero polynomial.
    pub fn leading_coefficient(&self) -> (r: Option<&Rational>)
        ensures
            self@.len() == 0 ==> r is None,
            self@.len() > 0 ==> (r matches Some(c) && c@ == self@.last()),
    {
        let c = self.poly.coefficients();
        if c.len() == 0 {
            None
        } else {
            Some(&c[c.len() - 1])
        }
    }

    /// Exact evaluation (Horner).
    pub fn evaluate(&self, value: &Rational) -> (r: Rational)
        ensures
            r@ == horner(self@, value@),
    {
        self.poly.eval(value)
    }

    /// Sum.
    pub fn add(&self, rhs: &Polynomial) -> (r: Polynomial)
        ensures
            r@ == poly_add(self@, rhs@),
    {
        Polynomial { poly: self.poly.add_poly(&rhs.poly) }
    }

    /// Negation.
    pub fn negated(&self) -> (r: Polynomial)
        ensures
            r@ == poly_neg(self@),
    {
        let c = self.poly.coefficients();
        let mut v: Vec<Rational> = Vec::new();
        let mut i: usize = 0;
        while i < c.len()
            invariant
                qs(c@) == self@,
                i <= c@.len(),
                v@.len() == i,
                forall|k: int| 0 <= k < i ==> #[trigger] v@[k]@ == qneg(self@[k]),
            decreases c@.len() - i,
        {
            v.push(c[i].neg());
            i = i + 1;
        }
        proof {
            assert(qs(v@) =~= self@.map_values(|x: Q| qneg(x)));
        }
        Polynomial::new(v)
    }

    /// Difference, as the sum with the negation.
    pub fn sub(&self, rhs: &Polynomial) -> (r: Polynomial)
        ensures
            r@ == poly_add(self@, poly_neg(rhs@)),
    {
        self.add(&rhs.negated())
    }

    /// Product.
    pub fn mul(&self, rhs: &Polynomial) -> (r: Polynomial)
        requires
            self@.len() + rhs@.len() <= usize::MAX + 1,
        ensures
            r@ == poly_mul(self@, rhs@),
    {
        Polynomial { poly: self.poly.mul_poly(&rhs.poly) }
    }

    /// Formal derivative.
    pub fn derivative(&self) -> (r: Polynomial)
        ensures
            r@ == poly_deriv(self@),
    {
        Polynomial { poly: self.poly.derivative() }
    }

    /// Every coefficient divided by the leading one; the zero polynomial is
    /// fixed.
    pub fn monic(&self) -> (r: Polynomial)
        ensures
            r@ == poly_div_lead(self@),
            self@.len() > 0 ==> r@.len() == self@.len() && r@.last() == qint(1),
    {
        self.is_trimmed();
        let c = self.poly.coefficients();
        if c.len() == 0 {
            return Polynomial::zero();
        }
        let lead = &c[c.len() - 1];
        let mut v: Vec<Rational> = Vec::new();
        let mut i: usize = 0;
        while i < c.len()
            invariant
                qs(c@) == self@,
                c@.len() > 0,
                lead@ == self@.last(),
                lead@.0 != 0,
                i <= c@.len(),
                v@.len() == i,
                forall|k: int| 0 <= k < i ==> #[trigger] v@[k]@ == qdiv(self@[k], self@.last()),
            decreases c@.len() - i,
        {
            v.push(c[i].div(lead));
            i = i + 1;
        }
        lead.lowest_terms();
        proof {
            let m = self@.map_values(|x: Q| qdiv(x, self@.last()));
            assert(qs(v@) =~= m);
            lemma_qdiv_self(self@.last());
            assert(m.last() == qint(1));
            lemma_trim(m);
        }
        Polynomial::new(v)
    }
}


/// Trimming a list whose last coefficient is zero shortens it.
pub proof fn lemma_trim_drops_top(s: Seq<Q>)
    requires
        s.len() > 0,
        s.last().0 == 0,
    ensures
        trim(s).len() < s.len(),
{
    lemma_trim(s.drop_last());
}

/// `n` zeros.
fn zeros(n: usize) -> (v: Vec<Rational>)
    ensures
        v@.len() == n,
        forall|k: int| 0 <= k < n ==> #[trigger] v@[k]@ == qint(0),
{
    let mut v: Vec<Rational> = Vec::new();
    while v.len() < n
        invariant
            v@.len() <= n,
            forall|k: int| 0 <= k < v@.len() ==> #[trigger] v@[k]@ == qint(0),
        decreases n - v@.len(),
    {
        v.push(Rational::zero());
    }
    v
}

impl Polynomial {
    /// Euclidean division `self = q·divisor + r` with `deg r < deg divisor`,
    /// by repeatedly cancelling the remainder's leading term; an error for
    /// the zero divisor.
    pub fn div_rem(&self, divisor: &Polynomial) -> (r: Result<(Polynomial, Polynomial), AlgebraError>)
        ensures
            r is Err <==> divisor@.len() == 0,
            r is Err ==> r == Err::<(Polynomial, Polynomial), AlgebraError>(AlgebraError::DivisionByZeroPolynomial),
            r matches Ok(qr) ==> qr.1@.len() < divisor@.len() && qr.0@.len() <= self@.len(),
            r matches Ok(qr) ==> (self@.len() < divisor@.len() ==> qr.0@.len() == 0 && qr.1@ == self@),
            r matches Ok(qr) ==> (self@.len() >= divisor@.len() ==> qr.0@.len() == self@.len() - divisor@.len() + 1),
            r matches Ok(qr) ==> self@ == poly_add(poly_mul(qr.0@, divisor@), qr.1@),
    {
        if divisor.is_zero() {
            return Err(AlgebraError::DivisionByZeroPolynomial);
        }
        divisor.is_trimmed();
        self.is_trimmed();
        self.poly.lowest_coefficients();
        divisor.poly.lowest_coefficients();
        let dc = divisor.coefficients();
        let dd = dc.len() - 1;
        let dlead = dc[dd].clone();
        dlead.lowest_terms();
        let slen = self.coefficients().len();
        let quotient_size = if slen > dd { slen - dd } else { 0 };
        let mut quotient = zeros(quotient_size);
        let mut remainder = self.duplicate();
        proof {
            lemma_cancel_start(self@, divisor@, qs(quotient@));
        }
        while remainder.coefficients().len() > dd
            invariant
                cancel_state(self@, divisor@, qs(quotient@), remainder@),
                qs(dc@) == divisor@,
                dd + 1 == dc@.len(),
                dlead@ == divisor@.last(),
                canonical(dlead@),
                dlead@.0 != 0,
                slen == self@.len(),
                quotient_size == (if slen > dd { slen - dd } else { 0 }),
                quotient@.len() == quotient_size,
                remainder@.len() <= self@.len(),
                self@.len() < divisor@.len() ==> remainder@ == self@,
                remainder@.len() == slen ==> remainder@ == self@,
                slen > dd && remainder@.len() < slen ==> quotient@[slen - dd - 1]@.0 != 0,
            decreases remainder@.len(),
        {
            remainder.is_trimmed();
            let rc = remainder.coefficients();
            let rlen = rc.len();
            let degree = rlen - 1 - dd;
            let rlead = rc[rlen - 1].clone();
            rlead.lowest_terms();
            let factor = rlead.div(&dlead);
            self.is_trimmed();
            proof {
                if rlen == slen {
                    assert(rlead@ == self@.last());
                    assert(rlead@.0 != 0);
                    assert(rlead@.0 * dlead@.1 != 0) by (nonlinear_arith)
                        requires
                            rlead@.0 != 0,
                            dlead@.1 > 0,
                    ;
                    if dlead@.0 < 0 {
                        assert(rlead@.1 * (-dlead@.0) > 0) by (nonlinear_arith)
                            requires
                                rlead@.1 > 0,
                                dlead@.0 < 0,
                        ;
                        crate::rational::lemma_reduce_sign(-(rlead@.0 * dlead@.1), rlead@.1 * (-dlead@.0));
                    } else {
                        assert(rlead@.1 * dlead@.0 > 0) by (nonlinear_arith)
                            requires
                                rlead@.1 > 0,
                                dlead@.0 > 0,
                        ;
                        crate::rational::lemma_reduce_sign(rlead@.0 * dlead@.1, rlead@.1 * dlead@.0);
                    }
                    assert(factor@.0 != 0);
                }
            }
            let ghost qbefore = quotient@;
            quotient.set(degree, factor.clone());
            let mut term = zeros(degree);
            let mut j: usize = 0;
            while j < dc.len()
                invariant
                    j <= dc@.len(),
                    term@.len() == degree + j,
                    forall|k: int| 0 <= k < degree ==> #[trigger] term@[k]@ == qint(0),
                    forall|k: int| 0 <= k < j ==> #[trigger] term@[degree + k]@ == qmul(dc@[k]@, factor@),
                decreases dc@.len() - j,
            {
                term.push(dc[j].mul(&factor));
                j = j + 1;
            }
            let ghost old_rem = remainder@;
            proof {
                lemma_qdiv_mul_cancel(rlead@, dlead@);
                assert(qs(term@).last() == qmul(dlead@, factor@)) by {
                    assert(term@[degree + dd]@ == qmul(dc@[dd as int]@, factor@));
                    assert(dc@[dd as int]@ == divisor@.last());
                }
                lemma_trim(qs(term@));
            }
            let tp = Polynomial::new(term);
            let ntp = tp.negated();
            proof {
                let negs = tp@.map_values(|c: Q| qneg(c));
                assert(negs.last() == qneg(qmul(dlead@, factor@)));
                lemma_trim(negs);
                assert(ntp@.len() == rlen);
                let sum = Seq::new(max_len(old_rem, ntp@), |i: int| qadd(coef(old_rem, i), coef(ntp@, i)));
                assert(sum.len() == rlen);
                assert(sum.last() == qadd(rlead@, qneg(qmul(dlead@, qdiv(rlead@, dlead@)))));
                lemma_trim_drops_top(sum);
            }
            remainder = remainder.add(&ntp);
            proof {
                lemma_qsub_quotient_cancels(rlead@, dlead@);
                assert(qs(term@) =~= shifted_term(divisor@, degree as int, factor@)) by {
                    assert forall|k: int| 0 <= k < qs(term@).len() implies #[trigger] qs(term@)[k] == shifted_term(
                        divisor@,
                        degree as int,
                        factor@,
                    )[k] by {
                        if k >= degree {
                            assert(term@[degree + (k - degree)]@ == qmul(dc@[k - degree]@, factor@));
                        }
                    }
                }
                assert(qs(quotient@) =~= qs(qbefore).update(degree as int, factor@));
                lemma_cancel_step(self@, divisor@, qs(qbefore), old_rem, degree as int, factor@, remainder@);
            }
        }
        proof {
            lemma_trim(qs(quotient@));
            lemma_cancel_result(self@, divisor@, qs(quotient@), remainder@);
        }
        Ok((Polynomial::new(quotient), remainder))
    }

    /// Monic gcd (Euclid); `gcd(0, 0) = 0`. Never fails: every divisor in
    /// the Euclidean sequence is nonzero.
    pub fn gcd(&self, rhs: &Polynomial) -> (r: Result<Polynomial, AlgebraError>)
        ensures
            r matches Ok(g) && {
                &&& g@.len() == 0 <==> (self@.len() == 0 && rhs@.len() == 0)
                &&& g@.len() > 0 ==> g@.last() == qint(1)
                &&& rhs@.len() == 0 ==> g@ == poly_div_lead(self@)
                &&& self@.len() == 0 ==> g@ == poly_div_lead(rhs@)
                &&& g@.len() <= max_len(self@, rhs@)
                &&& exists|last: Seq<Q>| euclid_last_remainder(self@, rhs@, last) && g@ == poly_div_lead(last)
            },
    {
        let mut left = self.duplicate();
        let mut right = rhs.duplicate();
        let ghost mut first = true;
        let ghost mut chain: Seq<Seq<Q>> = seq![self@, rhs@];
        let ghost mut quots: Seq<Seq<Q>> = Seq::empty();
        while !right.is_zero()
            invariant
                (left@.len() == 0 && right@.len() == 0) <==> (self@.len() == 0 && rhs@.len() == 0),
                first ==> left@ == self@ && right@ == rhs@,
                !first ==> rhs@.len() > 0,
                !first && self@.len() == 0 ==> left@ == rhs@ && right@.len() == 0,
                left@.len() <= max_len(self@, rhs@),
                right@.len() <= max_len(self@, rhs@),
                remainder_sequence(chain, quots),
                chain[0] == self@,
                chain[1] == rhs@,
                chain[chain.len() - 2] == left@,
                chain.last() == right@,
            decreases right@.len(),
        {
            let (quotient, remainder) = match left.div_rem(&right) {
                Ok(qr) => qr,
                Err(_) => {
                    proof {
                        assert(false);
                    }
                    (Polynomial::zero(), Polynomial::zero())
                },
            };
            proof {
                if first && self@.len() == 0 {
                    assert(remainder@ == left@);
                }
                first = false;
                let ghost old_quots = quots;
                chain = chain.push(remainder@);
                quots = quots.push(quotient@);
                assert forall|i: int| 0 <= i < quots.len() implies chain[i] == poly_add(
                    poly_mul(#[trigger] quots[i], chain[i + 1]),
                    chain[i + 2],
                ) && chain[i + 2].len() < chain[i + 1].len() by {
                    if i < old_quots.len() {
                        assert(old_quots[i] == quots[i]);
                    }
                }
            }
            left = right;
            right = remainder;
        }
        proof {
            assert(euclid_last_remainder(self@, rhs@, left@));
        }
        Ok(left.monic())
    }

    /// Exact resultant via the Sylvester determinant, limited by the
    /// budget's matrix dimension.
    pub fn resultant(&self, rhs: &Polynomial, budget: AlgebraBudget) -> (r: Result<Rational, AlgebraError>)
        ensures
            self@.len() > 0 && rhs@.len() > 0 && 1 <= self@.len() + rhs@.len() - 2 <= 2 ==> (r matches Ok(x) ==> x@
                == crate::roots::small_resultant(self@, rhs@)),
            (self@.len() == 0 || rhs@.len() == 0) ==> (r matches Ok(x) && x@ == qint(0)),
            self@.len() > 0 && rhs@.len() > 0 && self@.len() + rhs@.len() - 2 > budget.max_matrix_dimension ==> r matches Err(
                AlgebraError::ResultantDimension { .. },
            ),
            self@.len() == 1 && rhs@.len() == 1 ==> (r matches Ok(x) && x@ == qint(1)),
            self@.len() > 0 && rhs@.len() > 0 && self@.len() + rhs@.len() - 2 <= budget.max_matrix_dimension
                && (self@.len() + rhs@.len() - 2) * (self@.len() + rhs@.len() - 2) <= usize::MAX ==> r is Ok,
    {
        self.poly.resultant(&rhs.poly, budget)
    }
}


/// The ends of a stacked interval.
spec fn pair_of(e: (Rational, Rational)) -> (Q, Q) {
    (e.0@, e.1@)
}

/// The ends of a root interval.
pub open spec fn interval_of(r: RootInterval) -> (Q, Q) {
    (r.lower@, r.upper@)
}

/// Sign variations of the values of a polynomial sequence at `x`.
pub open spec fn sequence_variations(seq: Seq<Seq<Q>>, x: Q) -> nat {
    variations_spec(seq.map_values(|p: Seq<Q>| horner(p, x)))
}

/// The running maximum of `|p[i]| / |lead|` over `i < n`, from zero.
pub open spec fn bound_max(p: Seq<Q>, n: int) -> Q
    decreases n,
{
    if n <= 0 {
        qint(0)
    } else {
        let m = bound_max(p, n - 1);
        let a = qdiv(qabs(p[n - 1]), qabs(p.last()));
        if qlt(m, a) {
            a
        } else {
            m
        }
    }
}

/// `1 + max |p[i]| / |lead|` over the non-leading coefficients: every real
/// root lies strictly inside `(-bound, bound)`.
pub open spec fn root_bound_spec(p: Seq<Q>) -> Q {
    qadd(qint(1), bound_max(p, p.len() - 1))
}

/// The Sturm sequence of `p`: `p`, `p'`, then the negated remainders of
/// Euclid's algorithm until one vanishes.
fn sturm_sequence(p: &Polynomial) -> (r: Vec<Polynomial>)
    ensures
        r@.len() >= 2,
        r@[0]@ == p@,
        r@[1]@ == poly_deriv(p@),
{
    let mut seq: Vec<Polynomial> = Vec::new();
    seq.push(p.duplicate());
    seq.push(p.derivative());
    loop
        invariant
            seq@.len() >= 2,
            seq@[0]@ == p@,
            seq@[1]@ == poly_deriv(p@),
        decreases seq@[seq@.len() - 1]@.len(),
    {
        let n = seq.len();
        if seq[n - 1].is_zero() {
            break;
        }
        let remainder = match seq[n - 2].div_rem(&seq[n - 1]) {
            Ok(qr) => qr.1,
            Err(_) => {
                break;
            },
        };
        if remainder.is_zero() {
            break;
        }
        let neg = remainder.negated();
        proof {
            lemma_trim(remainder@.map_values(|c: Q| qneg(c)));
        }
        seq.push(neg);
    }
    seq
}

/// Sign variations of the sequence's values at `point` (zeros skipped).
fn variations(sequence: &Vec<Polynomial>, point: &Rational) -> (r: usize)
    ensures
        r == sequence_variations(sequence@.map_values(|p: Polynomial| p@), point@),
{
    let ghost vals = sequence@.map_values(|p: Polynomial| p@).map_values(|p: Seq<Q>| horner(p, point@));
    let mut count: usize = 0;
    let mut last: Option<Sign> = None;
    let mut i: usize = 0;
    while i < sequence.len()
        invariant
            i <= sequence@.len(),
            vals == sequence@.map_values(|p: Polynomial| p@).map_values(|p: Seq<Q>| horner(p, point@)),
            vals.len() == sequence@.len(),
            count <= i,
            (count as nat, last) == var_state(vals, i as int),
        decreases sequence@.len() - i,
    {
        let v = sequence[i].evaluate(point);
        let sg = v.sign();
        proof {
            assert(vals[i as int] == horner(sequence@[i as int]@, point@));
        }
        if sg != Sign::Zero {
            match last {
                Some(l) => {
                    if l != sg {
                        count = count + 1;
                    }
                },
                None => {},
            }
            last = Some(sg);
        }
        i = i + 1;
    }
    count
}

/// Sturm count on `(lower, upper]`: the drop in sign variations, saturating
/// at zero.
fn root_count(sequence: &Vec<Polynomial>, lower: &Rational, upper: &Rational) -> (r: usize)
    ensures
        r == (if sequence_variations(sequence@.map_values(|p: Polynomial| p@), lower@) >= sequence_variations(
            sequence@.map_values(|p: Polynomial| p@),
            upper@,
        ) {
            sequence_variations(sequence@.map_values(|p: Polynomial| p@), lower@) - sequence_variations(
                sequence@.map_values(|p: Polynomial| p@),
                upper@,
            )
        } else {
            0
        }),
{
    variations(sequence, lower).saturating_sub(variations(sequence, upper))
}

/// [`root_bound_spec`] of a nonzero polynomial.
fn root_bound(p: &Polynomial) -> (r: Rational)
    requires
        p@.len() > 0,
    ensures
        r@ == root_bound_spec(p@),
        r@.0 > 0,
{
    p.is_trimmed();
    let c = p.coefficients();
    let n = c.len();
    let lead = c[n - 1].abs();
    lead.lowest_terms();
    let mut max = Rational::zero();
    let mut i: usize = 0;
    while i < n - 1
        invariant
            qs(c@) == p@,
            n == c@.len(),
            n >= 1,
            lead@ == qabs(p@.last()),
            lead@.0 != 0,
            canonical(lead@),
            i <= n - 1,
            max@ == bound_max(p@, i as int),
            max@.0 >= 0,
        decreases n - 1 - i,
    {
        c[i].lowest_terms();
        let a = c[i].abs().div(&lead);
        proof {
            assert(c@[i as int]@ == p@[i as int]);
        }
        a.lowest_terms();
        proof {
            let x = qabs(p@[i as int]);
            assert(x.0 >= 0);
            if lead@.0 > 0 {
                assert(x.1 * lead@.0 > 0) by (nonlinear_arith)
                    requires
                        x.1 > 0,
                        lead@.0 > 0,
                ;
                crate::rational::lemma_reduce_sign(x.0 * lead@.1, x.1 * lead@.0);
                assert(x.0 * lead@.1 >= 0) by (nonlinear_arith)
                    requires
                        x.0 >= 0,
                        lead@.1 > 0,
                ;
            }
        }
        if max.lt(&a) {
            max = a;
        }
        i = i + 1;
    }
    max.lowest_terms();
    let b = Rational::one().add(&max);
    proof {
        assert(1 * max@.1 + max@.0 * 1 > 0);
        assert(1 * max@.1 > 0);
        crate::rational::lemma_reduce_sign(1 * max@.1 + max@.0 * 1, 1 * max@.1);
    }
    b
}

/// Apart intervals in order of their lower ends: the first ends where the
/// second begins, or before.
proof fn lemma_apart_by_lower(a: (Q, Q), b: (Q, Q))
    requires
        a.0.1 > 0,
        a.1.1 > 0,
        b.0.1 > 0,
        b.1.1 > 0,
        qlt(a.0, a.1),
        qlt(b.0, b.1),
        apart(a, b),
        qle(a.0, b.0),
    ensures
        qle(a.1, b.0),
{
    if !qle(a.1, b.0) {
        assert(qle(b.1, a.0));
        crate::rational::lemma_qle_trans(b.1, a.0, b.0);
        assert(false) by (nonlinear_arith)
            requires
                b.0.0 * b.1.1 < b.1.0 * b.0.1,
                b.1.0 * b.0.1 <= b.0.0 * b.1.1,
        ;
    }
}

impl Polynomial {
    /// Isolate the real roots of the square-free part by Sturm counts and
    /// bisection of the root-bound interval, under the budget's bisection
    /// limit: an error for the zero polynomial, no roots for a constant, and
    /// otherwise open intervals sorted by their lower ends, each ending
    /// where the next begins or before.
    #[verifier::spinoff_prover]
    #[verifier::rlimit(30)]
    pub fn isolate_real_roots(&self, budget: AlgebraBudget) -> (r: Result<Vec<RootInterval>, AlgebraError>)
        ensures
            self@.len() == 0 ==> r == Err::<Vec<RootInterval>, AlgebraError>(AlgebraError::ZeroPolynomialRoots),
            self@.len() == 1 ==> (r matches Ok(v) && v@.len() == 0),
            self@.len() >= 2 ==> (r is Ok || r == Err::<Vec<RootInterval>, AlgebraError>(AlgebraError::BudgetExceeded {
                operation: "isolating real roots",
                limit: budget.max_root_bisections,
            })),
            r matches Ok(v) ==> forall|k: int| 0 <= k < v@.len() ==> qlt(#[trigger] v@[k].lower@, v@[k].upper@),
            r matches Ok(v) ==> forall|k: int| 0 <= k < v@.len() - 1 ==> qle(#[trigger] v@[k].upper@, v@[k + 1].lower@),
    {
        if self.is_zero() {
            return Err(AlgebraError::ZeroPolynomialRoots);
        }
        if self.degree() == Some(0) {
            return Ok(Vec::new());
        }
        let derivative = self.derivative();
        proof {
            lemma_trim(Seq::new((self@.len() - 1) as nat, |i: int| qmul(self@[i + 1], qint(i + 1))));
        }
        let g = match self.gcd(&derivative) {
            Ok(g) => g,
            Err(e) => {
                return Err(e);
            },
        };
        let square_free = match self.div_rem(&g) {
            Ok(qr) => qr.0,
            Err(e) => {
                return Err(e);
            },
        };
        let sturm = sturm_sequence(&square_free);
        let bound = root_bound(&square_free);
        bound.lowest_terms();
        let nb = bound.neg();
        nb.lowest_terms();
        proof {
            assert(qlt(nb@, bound@)) by (nonlinear_arith)
                requires
                    nb@ == (-bound@.0, bound@.1),
                    bound@.0 > 0,
                    bound@.1 > 0,
            ;
        }
        let half = crate::roots::half();
        let mut out: Vec<RootInterval> = Vec::new();
        let mut work: Vec<(Rational, Rational)> = Vec::new();
        work.push((nb, bound));
        let mut bisections: usize = 0;
        while work.len() > 0
            invariant
                self@.len() >= 2,
                bisections <= budget.max_root_bisections,
                half@ == (1int, 2int),
                forall|k: int| 0 <= k < work@.len() ==> canonical(#[trigger] work@[k].0@) && canonical(work@[k].1@)
                    && qlt(work@[k].0@, work@[k].1@),
                forall|k: int| 0 <= k < out@.len() ==> canonical(#[trigger] out@[k].lower@) && canonical(out@[k].upper@)
                    && qlt(out@[k].lower@, out@[k].upper@),
                forall|i: int, j: int|
                    0 <= i < out@.len() && 0 <= j < out@.len() && i != j ==> apart(interval_of(out@[i]), interval_of(out@[j])),
                forall|i: int, j: int|
                    0 <= i < work@.len() && 0 <= j < work@.len() && i != j ==> apart(pair_of(work@[i]), pair_of(work@[j])),
                forall|i: int, j: int|
                    0 <= i < out@.len() && 0 <= j < work@.len() ==> apart(interval_of(out@[i]), pair_of(work@[j])),
            decreases budget.max_root_bisections - bisections, work@.len(),
        {
            let ghost old_work = work@;
            let ghost old_out = out@;
            let top = work.pop();
            let (lower, upper) = match top {
                Some(e) => e,
                None => {
                    break;
                },
            };
            lower.lowest_terms();
            upper.lowest_terms();
            let ghost n = old_work.len() - 1;
            proof {
                assert(work@ =~= old_work.subrange(0, n));
                assert forall|k: int| 0 <= k < work@.len() implies canonical(#[trigger] work@[k].0@) && canonical(
                    work@[k].1@,
                ) && qlt(work@[k].0@, work@[k].1@) by {
                    assert(work@[k] == old_work[k]);
                }
                assert(pair_of(old_work[n]) == (lower@, upper@));
                assert(qlt(old_work[n].0@, old_work[n].1@));
            }
            let ghost popped = work@;
            let count = root_count(&sturm, &lower, &upper);
            if count == 0 {
                assert(work@ == popped);
            } else if count == 1 {
                out.push(RootInterval { lower, upper });
                proof {
                    assert forall|i: int, j: int|
                        0 <= i < out@.len() && 0 <= j < out@.len() && i != j implies apart(interval_of(out@[i]), interval_of(out@[j])) by {
                        if i == old_out.len() {
                            assert(apart(interval_of(old_out[j]), pair_of(old_work[n])));
                        } else if j == old_out.len() {
                            assert(apart(interval_of(old_out[i]), pair_of(old_work[n])));
                        }
                    }
                    assert forall|i: int, j: int|
                        0 <= i < out@.len() && 0 <= j < work@.len() implies apart(interval_of(out@[i]), pair_of(work@[j])) by {
                        if i == old_out.len() {
                            assert(apart(pair_of(old_work[n]), pair_of(old_work[j])));
                        } else {
                            assert(apart(interval_of(old_out[i]), pair_of(old_work[j])));
                        }
                    }
                }
            } else {
                if bisections >= budget.max_root_bisections {
                    return Err(AlgebraError::BudgetExceeded {
                        operation: "isolating real roots",
                        limit: budget.max_root_bisections,
                    });
                }
                bisections = bisections + 1;
                let mid = lower.add(&upper).mul(&half);
                mid.lowest_terms();
                proof {
                    crate::rational::lemma_midpoint(lower@, upper@);
                }
                let ghost w2 = work@;
                work.push((mid.clone(), upper));
                work.push((lower, mid));
                proof {
                    let e = pair_of(old_work[n]);
                    let a = pair_of(work@[n as int]);
                    let b = pair_of(work@[n + 1]);
                    assert(a.1 == e.1 && b.0 == e.0 && a.0 == b.1);
                    assert(qle(e.0, a.0) && qle(b.1, e.1));
                    crate::rational::lemma_qle_trans(e.0, e.0, e.0);
                    crate::rational::lemma_qle_trans(e.1, e.1, e.1);
                    assert(mid@ == qmul(qadd(lower@, upper@), (1int, 2int)));
                    assert(work@[n as int].0@ == mid@ && work@[n as int].1@ == upper@);
                    assert(work@[n + 1].0@ == lower@ && work@[n + 1].1@ == mid@);
                    assert(qlt(mid@, upper@) && qlt(lower@, mid@));
                    assert forall|k: int| 0 <= k < work@.len() implies canonical(#[trigger] work@[k].0@) && canonical(
                        work@[k].1@,
                    ) && qlt(work@[k].0@, work@[k].1@) by {
                        if k < n {
                            assert(work@[k] == w2[k]);
                            assert(w2[k] == old_work[k]);
                        } else if k == n {
                            assert(work@[k].0@ == mid@ && work@[k].1@ == upper@);
                        } else {
                            assert(work@[k].0@ == lower@ && work@[k].1@ == mid@);
                        }
                    }
                    assert forall|i: int, j: int|
                        0 <= i < work@.len() && 0 <= j < work@.len() && i != j implies apart(pair_of(work@[i]), pair_of(work@[j])) by {
                        if i >= n && j >= n {
                            crate::rational::lemma_qle_trans(a.0, a.0, a.0);
                        } else if i >= n {
                            assert(apart(e, pair_of(old_work[j])));
                            crate::roots::lemma_apart_sub(e, pair_of(work@[i]), pair_of(old_work[j]));
                        } else if j >= n {
                            assert(apart(e, pair_of(old_work[i])));
                            crate::roots::lemma_apart_sub(e, pair_of(work@[j]), pair_of(old_work[i]));
                        } else {
                            assert(work@[i] == w2[i] && work@[j] == w2[j]);
                        }
                    }
                    assert forall|i: int, j: int|
                        0 <= i < out@.len() && 0 <= j < work@.len() implies apart(interval_of(out@[i]), pair_of(work@[j])) by {
                        if j >= n {
                            assert(apart(interval_of(old_out[i]), e));
                            crate::roots::lemma_apart_sub(e, pair_of(work@[j]), interval_of(old_out[i]));
                        } else {
                            assert(work@[j] == w2[j]);
                        }
                    }
                }
            }
            assert(forall|k: int| 0 <= k < work@.len() ==> canonical(#[trigger] work@[k].0@) && canonical(work@[k].1@)
                && qlt(work@[k].0@, work@[k].1@));
        }
        // Sort by lower end (stable insertion).
        let mut sorted: Vec<RootInterval> = Vec::new();
        let mut i: usize = 0;
        while i < out.len()
            invariant
                i <= out@.len(),
                forall|k: int| 0 <= k < out@.len() ==> canonical(#[trigger] out@[k].lower@) && canonical(out@[k].upper@)
                    && qlt(out@[k].lower@, out@[k].upper@),
                forall|a: int, b: int|
                    0 <= a < out@.len() && 0 <= b < out@.len() && a != b ==> apart(interval_of(out@[a]), interval_of(out@[b])),
                forall|k: int| 0 <= k < sorted@.len() ==> canonical(#[trigger] sorted@[k].lower@) && canonical(sorted@[k].upper@)
                    && qlt(sorted@[k].lower@, sorted@[k].upper@),
                forall|k: int| 0 <= k < sorted@.len() - 1 ==> qle(#[trigger] sorted@[k].upper@, sorted@[k + 1].lower@),
                forall|k: int, j: int|
                    0 <= k < sorted@.len() && i <= j < out@.len() ==> apart(interval_of(sorted@[k]), interval_of(out@[j])),
            decreases out@.len() - i,
        {
            let x = RootInterval { lower: out[i].lower.clone(), upper: out[i].upper.clone() };
            let mut pos: usize = 0;
            while pos < sorted.len() && !x.lower.lt(&sorted[pos].lower)
                invariant
                    pos <= sorted@.len(),
                    forall|k: int| 0 <= k < pos ==> !qlt(x.lower@, (#[trigger] sorted@[k]).lower@),
                decreases sorted@.len() - pos,
            {
                pos = pos + 1;
            }
            let ghost old_sorted = sorted@;
            proof {
                assert(interval_of(x) == interval_of(out@[i as int]));
            }
            sorted.insert(pos, x);
            proof {
                old_sorted.insert_ensures(pos as int, x);
                assert forall|k: int| 0 <= k < sorted@.len() - 1 implies qle(#[trigger] sorted@[k].upper@, sorted@[k + 1].lower@) by {
                    if k + 1 < pos {
                        assert(sorted@[k] == old_sorted[k] && sorted@[k + 1] == old_sorted[k + 1]);
                    } else if k + 1 == pos {
                        assert(sorted@[k] == old_sorted[k]);
                        assert(apart(interval_of(old_sorted[k]), interval_of(out@[i as int])));
                        assert(!qlt(x.lower@, old_sorted[k].lower@));
                        assert(qle(old_sorted[k].lower@, x.lower@));
                        lemma_apart_by_lower(interval_of(old_sorted[k]), interval_of(x));
                    } else if k == pos {
                        assert(sorted@[k + 1] == old_sorted[k]);
                        assert(apart(interval_of(old_sorted[k]), interval_of(out@[i as int])));
                        lemma_apart_by_lower(interval_of(x), interval_of(old_sorted[k]));
                    } else {
                        assert(sorted@[k] == old_sorted[k - 1] && sorted@[k + 1] == old_sorted[k]);
                    }
                }
                assert forall|k: int| 0 <= k < sorted@.len() implies canonical(#[trigger] sorted@[k].lower@) && canonical(sorted@[k].upper@)
                    && qlt(sorted@[k].lower@, sorted@[k].upper@) by {
                    if k < pos {
                        assert(sorted@[k] == old_sorted[k]);
                    } else if k > pos {
                        assert(sorted@[k] == old_sorted[k - 1]);
                    }
                }
                assert forall|k: int, j: int|
                    0 <= k < sorted@.len() && i + 1 <= j < out@.len() implies apart(interval_of(sorted@[k]), interval_of(out@[j])) by {
                    if k < pos {
                        assert(sorted@[k] == old_sorted[k]);
                    } else if k > pos {
                        assert(sorted@[k] == old_sorted[k - 1]);
                    } else {
                        assert(apart(interval_of(out@[i as int]), interval_of(out@[j])));
                    }
                }
            }
            i = i + 1;
        }
        Ok(sorted)
    }
}

} // verus!
