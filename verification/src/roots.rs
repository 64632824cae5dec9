//! Dense univariate polynomials over ℚ: exact arithmetic, evaluation,
//! Euclidean division, gcds, square-free parts and decompositions, and
//! resultants.
use vstd::prelude::*;
use crate::algebra::{AlgebraBudget, AlgebraError};
use crate::rational::{Rational, Q, qint, qadd, qsub, qmul, qdiv, qneg, qlt, qle, canonical, lemma_qmul_inverse};
use crate::ratmat::{qs, Mat};
use crate::uncertain::{Sign, sign_of_int};
use core::cmp::Ordering;
use crate::rational::nat_spelling;
use crate::text::{nat_chars, push_chars, push_str};
use crate::polydiv::{
    all_lowest, division_state, lemma_division_start, lemma_division_skip, lemma_division_step,
    lemma_division_result, lemma_add_zero_left, lemma_add_zero_right, lemma_mul_lowest,
};

verus! {

/// Coefficient `i` of a coefficient list (zero beyond its end).
pub open spec fn coef(s: Seq<Q>, i: int) -> Q {
    if 0 <= i < s.len() {
        s[i]
    } else {
        qint(0)
    }
}

/// No trailing zero coefficient.
pub open spec fn trimmed(s: Seq<Q>) -> bool {
    s.len() == 0 || s.last().0 != 0
}

/// Drop trailing zero coefficients.
pub open spec fn trim(s: Seq<Q>) -> Seq<Q>
    decreases s.len(),
{
    if s.len() == 0 {
        s
    } else if s.last().0 == 0 {
        trim(s.drop_last())
    } else {
        s
    }
}

/// Horner evaluation of the coefficient list `s` (low to high) at `x`.
pub open spec fn horner(s: Seq<Q>, x: Q) -> Q
    decreases s.len(),
{
    if s.len() == 0 {
        qint(0)
    } else {
        qadd(qmul(horner(s.drop_first(), x), x), s[0])
    }
}

/// The larger of two lengths.
pub open spec fn max_len(a: Seq<Q>, b: Seq<Q>) -> nat {
    if a.len() >= b.len() {
        a.len()
    } else {
        b.len()
    }
}

/// Coefficient-wise sum.
pub open spec fn poly_add(a: Seq<Q>, b: Seq<Q>) -> Seq<Q> {
    trim(Seq::new(max_len(a, b), |i: int| qadd(coef(a, i), coef(b, i))))
}

/// Coefficient-wise difference.
pub open spec fn poly_sub(a: Seq<Q>, b: Seq<Q>) -> Seq<Q> {
    trim(Seq::new(max_len(a, b), |i: int| qsub(coef(a, i), coef(b, i))))
}

/// `Σ_{i < n, 0 <= k - i < |b|} a[i]·b[k - i]`, accumulated in increasing `i`.
pub open spec fn conv_at(a: Seq<Q>, b: Seq<Q>, k: int, n: int) -> Q
    decreases n,
{
    if n <= 0 {
        qint(0)
    } else if 0 <= k - (n - 1) < b.len() {
        qadd(conv_at(a, b, k, n - 1), qmul(a[n - 1], b[k - (n - 1)]))
    } else {
        conv_at(a, b, k, n - 1)
    }
}

/// Polynomial product (Cauchy convolution).
pub open spec fn poly_mul(a: Seq<Q>, b: Seq<Q>) -> Seq<Q> {
    if a.len() == 0 || b.len() == 0 {
        Seq::empty()
    } else {
        trim(Seq::new((a.len() + b.len() - 1) as nat, |k: int| conv_at(a, b, k, a.len() as int)))
    }
}

/// Scalar multiple.
pub open spec fn poly_scale(a: Seq<Q>, s: Q) -> Seq<Q> {
    trim(a.map_values(|c: Q| qmul(c, s)))
}

/// Formal derivative.
pub open spec fn poly_deriv(a: Seq<Q>) -> Seq<Q> {
    if a.len() <= 1 {
        Seq::empty()
    } else {
        trim(Seq::new((a.len() - 1) as nat, |i: int| qmul(a[i + 1], qint(i + 1))))
    }
}

/// `a` divided by its leading coefficient (the zero polynomial is fixed).
pub open spec fn poly_monic(a: Seq<Q>) -> Seq<Q> {
    if a.len() == 0 {
        a
    } else {
        poly_scale(a, qdiv(qint(1), a.last()))
    }
}

/// `p` is a Euclidean remainder sequence with quotients `quots`: every term
/// from the third on is what is left of the term two places back after
/// taking `quots[i]` times the term just before it, and is shorter than
/// that divisor.
pub open spec fn remainder_sequence(p: Seq<Seq<Q>>, quots: Seq<Seq<Q>>) -> bool {
    &&& p.len() >= 2
    &&& quots.len() + 2 == p.len()
    &&& forall|i: int|
        0 <= i < quots.len() ==> p[i] == poly_add(poly_mul(#[trigger] quots[i], p[i + 1]), p[i + 2])
            && p[i + 2].len() < p[i + 1].len()
}

/// Some Euclidean remainder sequence starts with `a`, `b`, ends with the
/// zero polynomial, and has `last` as the term just before that zero.
pub open spec fn euclid_last_remainder(a: Seq<Q>, b: Seq<Q>, last: Seq<Q>) -> bool {
    exists|p: Seq<Seq<Q>>, quots: Seq<Seq<Q>>|
        #![trigger remainder_sequence(p, quots)]
        remainder_sequence(p, quots) && p[0] == a && p[1] == b && p.last().len() == 0
            && p[p.len() - 2] == last
}

/// Facts about [`trim`]: it is a trimmed prefix and only zeros were cut.
pub proof fn lemma_trim(s: Seq<Q>)
    ensures
        trimmed(trim(s)),
        trim(s).len() <= s.len(),
        forall|i: int| 0 <= i < trim(s).len() ==> #[trigger] trim(s)[i] == s[i],
        forall|i: int| trim(s).len() <= i < s.len() ==> (#[trigger] s[i]).0 == 0,
        trimmed(s) ==> trim(s) == s,
    decreases s.len(),
{
    if s.len() > 0 && s.last().0 == 0 {
        lemma_trim(s.drop_last());
        assert forall|i: int| trim(s).len() <= i < s.len() implies (#[trigger] s[i]).0 == 0 by {
            if i < s.len() - 1 {
                assert(s.drop_last()[i] == s[i]);
            }
        }
    }
}

/// Pop trailing zeros.
fn trim_vec(v: &mut Vec<Rational>)
    ensures
        qs(final(v)@) == trim(qs(old(v)@)),
        final(v)@ == old(v)@.subrange(0, final(v)@.len() as int),
{
    let ghost v0 = v@;
    while v.len() > 0 && v[v.len() - 1].is_zero()
        invariant
            v@.len() <= v0.len(),
            v@ == v0.subrange(0, v@.len() as int),
            trim(qs(v@)) == trim(qs(v0)),
        decreases v@.len(),
    {
        let ghost before = v@;
        v.pop();
        proof {
            assert(qs(before).drop_last() =~= qs(v@));
            assert(qs(before).last() == before.last()@);
        }
    }
    proof {
        if v@.len() > 0 {
            assert(qs(v@).last() == v@.last()@);
        }
        assert(trimmed(qs(v@)));
        lemma_trim(qs(v@));
    }
}

/// The one-coefficient square root: `[c]·[c] == [x]` when `c` is the
/// square root that `Rational::sqrt_exact` gives of the nonzero `x`.
proof fn lemma_constant_square(p: Seq<Q>, x: Q, c: Q, g: Seq<Q>)
    requires
        p == seq![x],
        canonical(x),
        x.0 != 0,
        exists|a: nat, b: nat|
            #![trigger crate::rational::square(a), crate::rational::square(b)]
            crate::rational::square(a) == x.0 && crate::rational::square(b) == x.1 && c == crate::rational::reduce(
                a as int,
                b as int,
            ),
        g == trim(seq![c]),
    ensures
        poly_mul(g, g) == p,
{
    let (a, b) = choose|a: nat, b: nat|
        #![trigger crate::rational::square(a), crate::rational::square(b)]
        crate::rational::square(a) == x.0 && crate::rational::square(b) == x.1 && c == crate::rational::reduce(
            a as int,
            b as int,
        );
    crate::qfield::lemma_square_of_root(x, a, b);
    lemma_trim(seq![c]);
    assert(g =~= seq![c]);
    let raw = Seq::new(1, |k: int| conv_at(g, g, k, 1));
    assert(raw[0] == qadd(conv_at(g, g, 0, 0), qmul(c, c)));
    crate::qfield::lemma_zero_lowest();
    crate::qfield::lemma_qadd_zero(x);
    assert(raw =~= seq![x]);
    lemma_trim(seq![x]);
}

/// A dense univariate polynomial over ℚ, coefficients low-to-high with a
/// nonzero leading coefficient (the zero polynomial is the empty list).
#[derive(Debug, PartialEq, Eq)]
pub struct QPoly {
    coeffs: Vec<Rational>,
}

impl View for QPoly {
    type V = Seq<Q>;

    closed spec fn view(&self) -> Seq<Q> {
        qs(self.coeffs@)
    }
}

impl QPoly {
    #[verifier::type_invariant]
    closed spec fn no_trailing_zero(self) -> bool {
        trimmed(qs(self.coeffs@))
    }

    /// Every coefficient is in lowest terms (a pass of no-op checks exposing
    /// the fact).
    pub(crate) fn lowest_coefficients(&self)
        ensures
            all_lowest(self@),
    {
        lowest_all(&self.coeffs);
    }

    /// The coefficient list has no trailing zero (a no-op exposing the fact).
    pub fn is_trimmed(&self)
        ensures
            trimmed(self@),
    {
        proof {
            use_type_invariant(self);
        }
    }

    /// From low-to-high coefficients; trailing zeros are trimmed.
    pub fn new(coeffs: Vec<Rational>) -> (r: QPoly)
        ensures
            r@ == trim(qs(coeffs@)),
    {
        let ghost c0 = qs(coeffs@);
        let mut coeffs = coeffs;
        trim_vec(&mut coeffs);
        proof {
            lemma_trim(c0);
        }
        QPoly { coeffs }
    }

    /// Integer-coefficient convenience (low-to-high).
    pub fn from_i64s(coeffs: &[i64]) -> (r: QPoly)
        ensures
            r@ == trim(coeffs@.map_values(|c: i64| qint(c as int))),
    {
        let mut v: Vec<Rational> = Vec::new();
        let mut i: usize = 0;
        while i < coeffs.len()
            invariant
                i <= coeffs@.len(),
                v@.len() == i,
                forall|k: int| 0 <= k < i ==> #[trigger] v@[k]@ == qint(coeffs@[k] as int),
            decreases coeffs@.len() - i,
        {
            v.push(Rational::from_i64(coeffs[i]));
            i = i + 1;
        }
        proof {
            assert(qs(v@) =~= coeffs@.map_values(|c: i64| qint(c as int)));
        }
        QPoly::new(v)
    }

    /// The zero polynomial.
    pub fn zero_poly() -> (r: QPoly)
        ensures
            r@ == Seq::<Q>::empty(),
    {
        let r = QPoly { coeffs: Vec::new() };
        proof {
            assert(r@ =~= Seq::<Q>::empty());
        }
        r
    }

    /// Is this the zero polynomial?
    pub fn is_zero(&self) -> (r: bool)
        ensures
            r == (self@.len() == 0),
    {
        self.coeffs.len() == 0
    }

    /// Degree; `None` for the zero polynomial.
    pub fn degree(&self) -> (r: Option<usize>)
        ensures
            self@.len() == 0 ==> r is None,
            self@.len() > 0 ==> r == Some((self@.len() - 1) as usize),
    {
        if self.coeffs.len() == 0 {
            None
        } else {
            Some(self.coeffs.len() - 1)
        }
    }

    /// Coefficient of `x^i` (zero beyond the degree).
    pub fn coeff(&self, i: usize) -> (r: Rational)
        ensures
            r@ == coef(self@, i as int),
    {
        if i < self.coeffs.len() {
            self.coeffs[i].clone()
        } else {
            Rational::zero()
        }
    }

    /// Canonical low-to-high coefficient slice.
    pub fn coefficients(&self) -> (r: &[Rational])
        ensures
            qs(r@) == self@,
    {
        self.coeffs.as_slice()
    }

    /// Exact evaluation (Horner).
    pub fn eval(&self, x: &Rational) -> (r: Rational)
        ensures
            r@ == horner(self@, x@),
    {
        let ghost s = self@;
        let mut acc = Rational::zero();
        let mut k: usize = self.coeffs.len();
        proof {
            assert(s.subrange(k as int, s.len() as int) =~= Seq::<Q>::empty());
        }
        while k > 0
            invariant
                s == qs(self.coeffs@),
                k <= s.len(),
                acc@ == horner(s.subrange(k as int, s.len() as int), x@),
            decreases k,
        {
            let ghost tail = s.subrange(k as int, s.len() as int);
            acc = acc.mul(x).add(&self.coeffs[k - 1]);
            proof {
                let t = s.subrange(k - 1, s.len() as int);
                assert(t.drop_first() =~= tail);
                assert(t[0] == self.coeffs@[k - 1]@);
            }
            k = k - 1;
        }
        proof {
            assert(s.subrange(0, s.len() as int) =~= s);
        }
        acc
    }

    /// Exact sign at a rational point.
    pub fn sign_at(&self, x: &Rational) -> (r: Sign)
        ensures
            r == sign_of_int(horner(self@, x@).0),
    {
        self.eval(x).sign()
    }
}

impl Clone for QPoly {
    fn clone(&self) -> (r: Self)
        ensures
            r@ == self@,
    {
        proof {
            use_type_invariant(self);
        }
        let mut v: Vec<Rational> = Vec::new();
        let mut i: usize = 0;
        while i < self.coeffs.len()
            invariant
                i <= self.coeffs@.len(),
                v@.len() == i,
                forall|k: int| 0 <= k < i ==> #[trigger] v@[k]@ == self.coeffs@[k]@,
            decreases self.coeffs@.len() - i,
        {
            v.push(self.coeffs[i].clone());
            i = i + 1;
        }
        let r = QPoly { coeffs: v };
        proof {
            assert(r@ =~= self@);
        }
        r
    }
}


/// `n` zeros.
/// Every coefficient is in lowest terms (a pass of no-op checks that makes
/// the fact available to a proof).
fn lowest_all(v: &Vec<Rational>)
    ensures
        all_lowest(qs(v@)),
{
    let mut i: usize = 0;
    while i < v.len()
        invariant
            i <= v@.len(),
            forall|k: int| 0 <= k < i ==> canonical(#[trigger] v@[k]@),
        decreases v@.len() - i,
    {
        v[i].lowest_terms();
        i = i + 1;
    }
}

fn zeros_vec(n: usize) -> (v: Vec<Rational>)
    ensures
        v@.len() == n,
        forall|k: int| 0 <= k < n ==> #[trigger] v@[k]@ == qint(0),
{
    let mut v: Vec<Rational> = Vec::new();
    while v.len() < n
        invariant
            v@.len() <= n,
            forall|k: int| 0 <= k < v@.len() ==> #[trigger] v@[k]@ == qint(0),
        decreases n - v@.len(),
    {
        v.push(Rational::zero());
    }
    v
}

impl QPoly {
    /// Formal derivative.
    pub fn derivative(&self) -> (r: QPoly)
        ensures
            r@ == poly_deriv(self@),
    {
        let n = self.coeffs.len();
        if n <= 1 {
            let z = QPoly::zero_poly();
            return z;
        }
        let mut v: Vec<Rational> = Vec::new();
        let mut i: usize = 1;
        while i < n
            invariant
                n == self.coeffs@.len(),
                1 <= i <= n,
                v@.len() == i - 1,
                forall|k: int| 0 <= k < i - 1 ==> #[trigger] v@[k]@ == qmul(self@[k + 1], qint(k + 1)),
            decreases n - i,
        {
            v.push(self.coeffs[i].mul(&Rational::from_u64(i as u64)));
            i = i + 1;
        }
        proof {
            assert(qs(v@) =~= Seq::new((self@.len() - 1) as nat, |k: int| qmul(self@[k + 1], qint(k + 1))));
        }
        QPoly::new(v)
    }

    /// Polynomial sum.
    pub fn add_poly(&self, rhs: &QPoly) -> (r: QPoly)
        ensures
            r@ == poly_add(self@, rhs@),
    {
        let n = if self.coeffs.len() >= rhs.coeffs.len() { self.coeffs.len() } else { rhs.coeffs.len() };
        let mut v: Vec<Rational> = Vec::new();
        let mut i: usize = 0;
        while i < n
            invariant
                n == max_len(self@, rhs@),
                i <= n,
                v@.len() == i,
                forall|k: int| 0 <= k < i ==> #[trigger] v@[k]@ == qadd(coef(self@, k), coef(rhs@, k)),
            decreases n - i,
        {
            v.push(self.coeff(i).add(&rhs.coeff(i)));
            i = i + 1;
        }
        proof {
            assert(qs(v@) =~= Seq::new(max_len(self@, rhs@), |k: int| qadd(coef(self@, k), coef(rhs@, k))));
        }
        QPoly::new(v)
    }

    /// Polynomial difference.
    pub fn sub_poly(&self, rhs: &QPoly) -> (r: QPoly)
        ensures
            r@ == poly_sub(self@, rhs@),
    {
        let n = if self.coeffs.len() >= rhs.coeffs.len() { self.coeffs.len() } else { rhs.coeffs.len() };
        let mut v: Vec<Rational> = Vec::new();
        let mut i: usize = 0;
        while i < n
            invariant
                n == max_len(self@, rhs@),
                i <= n,
                v@.len() == i,
                forall|k: int| 0 <= k < i ==> #[trigger] v@[k]@ == qsub(coef(self@, k), coef(rhs@, k)),
            decreases n - i,
        {
            v.push(self.coeff(i).sub(&rhs.coeff(i)));
            i = i + 1;
        }
        proof {
            assert(qs(v@) =~= Seq::new(max_len(self@, rhs@), |k: int| qsub(coef(self@, k), coef(rhs@, k))));
        }
        QPoly::new(v)
    }

    /// Polynomial product.
    pub fn mul_poly(&self, rhs: &QPoly) -> (r: QPoly)
        requires
            self@.len() + rhs@.len() <= usize::MAX + 1,
        ensures
            r@ == poly_mul(self@, rhs@),
    {
        if self.is_zero() || rhs.is_zero() {
            return QPoly::zero_poly();
        }
        let la = self.coeffs.len();
        let lb = rhs.coeffs.len();
        let n = la - 1 + lb;
        let mut out = zeros_vec(n);
        let ghost a = self@;
        let ghost b = rhs@;
        let mut i: usize = 0;
        while i < la
            invariant
                a == self@,
                b == rhs@,
                la == a.len(),
                lb == b.len(),
                la >= 1,
                lb >= 1,
                n == la + lb - 1,
                i <= la,
                out@.len() == n,
                forall|k: int| 0 <= k < n ==> #[trigger] out@[k]@ == conv_at(a, b, k, i as int),
            decreases la - i,
        {
            let mut j: usize = 0;
            while j < lb
                invariant
                    a == self@,
                    b == rhs@,
                    la == a.len(),
                    lb == b.len(),
                    n == la + lb - 1,
                    i < la,
                    j <= lb,
                    out@.len() == n,
                    forall|k: int|
                        0 <= k < n ==> #[trigger] out@[k]@ == (if i <= k < i + j {
                            conv_at(a, b, k, i + 1)
                        } else {
                            conv_at(a, b, k, i as int)
                        }),
                decreases lb - j,
            {
                let v = out[i + j].add(&self.coeffs[i].mul(&rhs.coeffs[j]));
                out.set(i + j, v);
                proof {
                    assert(a[i as int] == self.coeffs@[i as int]@);
                    assert(b[j as int] == rhs.coeffs@[j as int]@);
                    assert(conv_at(a, b, (i + j) as int, i + 1) == qadd(
                        conv_at(a, b, (i + j) as int, i as int),
                        qmul(a[i as int], b[j as int]),
                    ));
                }
                j = j + 1;
            }
            proof {
                assert forall|k: int| 0 <= k < n implies #[trigger] out@[k]@ == conv_at(a, b, k, i + 1) by {
                    if !(i <= k < i + lb) {
                        assert(conv_at(a, b, k, i + 1) == conv_at(a, b, k, i as int));
                    }
                }
            }
            i = i + 1;
        }
        proof {
            assert(qs(out@) =~= Seq::new((a.len() + b.len() - 1) as nat, |k: int| conv_at(a, b, k, a.len() as int)));
        }
        QPoly::new(out)
    }

    /// Scalar multiple.
    pub fn scale(&self, s: &Rational) -> (r: QPoly)
        ensures
            r@ == poly_scale(self@, s@),
            r@.len() <= self@.len(),
    {
        let mut v: Vec<Rational> = Vec::new();
        let mut i: usize = 0;
        while i < self.coeffs.len()
            invariant
                i <= self.coeffs@.len(),
                v@.len() == i,
                forall|k: int| 0 <= k < i ==> #[trigger] v@[k]@ == qmul(self@[k], s@),
            decreases self.coeffs@.len() - i,
        {
            v.push(self.coeffs[i].mul(s));
            i = i + 1;
        }
        proof {
            assert(qs(v@) =~= self@.map_values(|c: Q| qmul(c, s@)));
            lemma_trim(qs(v@));
        }
        QPoly::new(v)
    }

    /// The monic associate `self / lead(self)`; the zero polynomial is fixed.
    pub fn monic(&self) -> (r: QPoly)
        ensures
            r@ == poly_monic(self@),
            self@.len() > 0 ==> r@.len() == self@.len() && r@.last() == qint(1),
    {
        self.is_trimmed();
        let n = self.coeffs.len();
        if n == 0 {
            return self.clone();
        }
        let lead = self.coeff(n - 1);
        lead.lowest_terms();
        let inv = Rational::one().div(&lead);
        let r = self.scale(&inv);
        proof {
            lemma_qmul_inverse(lead@);
            let m = self@.map_values(|c: Q| qmul(c, inv@));
            assert(m.last() == qint(1));
            lemma_trim(m);
        }
        r
    }

    /// Euclidean division by a nonzero divisor: `(quotient, remainder)` with
    /// `deg r < deg rhs`.
    fn divrem(&self, rhs: &QPoly) -> (r: (QPoly, QPoly))
        requires
            rhs@.len() > 0,
        ensures
            r.1@.len() < rhs@.len(),
            r.0@.len() <= self@.len(),
            self@.len() < rhs@.len() ==> r.0@.len() == 0 && r.1@ == self@,
            self@ == poly_add(poly_mul(r.0@, rhs@), r.1@),
    {
        rhs.is_trimmed();
        self.is_trimmed();
        lowest_all(&self.coeffs);
        lowest_all(&rhs.coeffs);
        let ghost p = qs(self.coeffs@);
        let ghost d = qs(rhs.coeffs@);
        if self.coeffs.len() < rhs.coeffs.len() {
            proof {
                lemma_add_zero_left(p);
                assert(poly_mul(Seq::<Q>::empty(), d) == Seq::<Q>::empty());
            }
            return (QPoly::zero_poly(), self.clone());
        }
        let dr = rhs.coeffs.len() - 1;
        let lead = rhs.coeff(dr);
        let mut rem: Vec<Rational> = Vec::new();
        let mut t: usize = 0;
        while t < self.coeffs.len()
            invariant
                t <= self.coeffs@.len(),
                rem@.len() == t,
                forall|i: int| 0 <= i < t ==> #[trigger] rem@[i]@ == self.coeffs@[i]@,
            decreases self.coeffs@.len() - t,
        {
            rem.push(self.coeffs[t].clone());
            t = t + 1;
        }
        let qlen = rem.len() - dr;
        let mut quot = zeros_vec(qlen);
        proof {
            assert(qs(rem@) =~= p);
            lemma_division_start(p, d, qs(quot@));
        }
        let mut k: usize = qlen;
        while k > 0
            invariant
                rem@.len() == self.coeffs@.len(),
                dr + 1 == rhs.coeffs@.len(),
                qlen == rem@.len() - dr,
                quot@.len() == qlen,
                dr <= rem@.len(),
                k <= qlen,
                lead@ == d[dr as int],
                lead@.0 != 0,
                d == qs(rhs.coeffs@),
                p == qs(self.coeffs@),
                division_state(p, d, qs(quot@), qs(rem@), k as int),
            decreases k,
        {
            k = k - 1;
            let _rl = rem.len();
            let c = rem[k + dr].clone();
            if !c.is_zero() {
                let q = c.div(&lead);
                let ghost r0 = qs(rem@);
                let mut j: usize = 0;
                while j < rhs.coeffs.len()
                    invariant
                        rem@.len() == self.coeffs@.len(),
                        r0.len() == rem@.len(),
                        dr + 1 == rhs.coeffs@.len(),
                        qlen == rem@.len() - dr,
                        dr <= rem@.len(),
                        k < qlen,
                        j <= rhs.coeffs@.len(),
                        d == qs(rhs.coeffs@),
                        forall|m: int|
                            0 <= m < rem@.len() ==> (#[trigger] rem@[m])@ == (if k <= m < k + j {
                                qsub(r0[m], qmul(q@, d[m - k]))
                            } else {
                                r0[m]
                            }),
                    decreases rhs.coeffs@.len() - j,
                {
                    let _rl = rem.len();
                    let v = rem[k + j].sub(&q.mul(&rhs.coeffs[j]));
                    rem.set(k + j, v);
                    j = j + 1;
                }
                proof {
                    assert forall|m: int| 0 <= m < r0.len() implies #[trigger] qs(rem@)[m] == (if k <= m <= k + d.len() - 1 {
                        qsub(r0[m], qmul(q@, d[m - k]))
                    } else {
                        r0[m]
                    }) by {
                        assert(qs(rem@)[m] == rem@[m]@);
                    }
                    lemma_division_step(p, d, qs(quot@), r0, qs(rem@), k as int, q@);
                }
                let ghost before = qs(quot@);
                quot.set(k, q);
                proof {
                    assert(qs(quot@) =~= before.update(k as int, q@));
                }
            } else {
                proof {
                    lemma_division_skip(p, d, qs(quot@), qs(rem@), k as int);
                }
            }
        }
        let mut low: Vec<Rational> = Vec::new();
        let mut t: usize = 0;
        while t < dr
            invariant
                t <= dr,
                dr <= rem@.len(),
                low@.len() == t,
                forall|i: int| 0 <= i < t ==> #[trigger] low@[i]@ == rem@[i]@,
            decreases dr - t,
        {
            low.push(rem[t].clone());
            t = t + 1;
        }
        proof {
            lemma_trim(qs(quot@));
            lemma_trim(qs(low@));
            assert(qs(low@) =~= qs(rem@).subrange(0, d.len() - 1));
            lemma_division_result(p, d, qs(quot@), qs(rem@), qs(low@));
        }
        (QPoly::new(quot), QPoly::new(low))
    }

    /// Euclidean division `self = q·rhs + r` with `deg r < deg rhs`; `None`
    /// iff `rhs` is the zero polynomial.
    pub fn div_rem(&self, rhs: &QPoly) -> (r: Option<(QPoly, QPoly)>)
        ensures
            r is None <==> rhs@.len() == 0,
            r matches Some(qr) ==> qr.1@.len() < rhs@.len() && qr.0@.len() <= self@.len(),
            r matches Some(qr) ==> (self@.len() < rhs@.len() ==> qr.0@.len() == 0 && qr.1@ == self@),
            r matches Some(qr) ==> self@ == poly_add(poly_mul(qr.0@, rhs@), qr.1@),
    {
        if rhs.is_zero() {
            None
        } else {
            Some(self.divrem(rhs))
        }
    }

    /// Does `self` divide `rhs` exactly? The zero polynomial divides only `0`.
    pub fn divides(&self, rhs: &QPoly) -> (r: bool)
        ensures
            self@.len() == 0 ==> r == (rhs@.len() == 0),
            self@.len() > 0 && rhs@.len() < self@.len() ==> r == (rhs@.len() == 0),
            r ==> exists|q: Seq<Q>| rhs@ == poly_mul(q, self@),
    {
        if self.is_zero() {
            proof {
                assert(poly_mul(Seq::<Q>::empty(), self@) == Seq::<Q>::empty());
            }
            return rhs.is_zero();
        }
        let (q, rem) = rhs.divrem(self);
        lowest_all(&q.coeffs);
        lowest_all(&self.coeffs);
        proof {
            if rem@.len() == 0 {
                assert(rem@ =~= Seq::<Q>::empty());
                lemma_mul_lowest(q@, self@);
                lemma_add_zero_right(poly_mul(q@, self@));
                assert(rhs@ == poly_mul(q@, self@));
            }
        }
        rem.is_zero()
    }

    /// Monic gcd (Euclid). `gcd(0, q) = monic q`; `gcd(0, 0) = 0`.
    pub fn gcd(&self, rhs: &QPoly) -> (r: QPoly)
        ensures
            r@.len() == 0 <==> (self@.len() == 0 && rhs@.len() == 0),
            r@.len() > 0 ==> r@.last() == qint(1),
            rhs@.len() == 0 ==> r@ == poly_monic(self@),
            self@.len() == 0 ==> r@ == poly_monic(rhs@),
            exists|last: Seq<Q>| euclid_last_remainder(self@, rhs@, last) && r@ == poly_monic(last),
    {
        let mut a = self.clone();
        let mut b = rhs.clone();
        let ghost mut first = true;
        let ghost mut chain: Seq<Seq<Q>> = seq![self@, rhs@];
        let ghost mut quots: Seq<Seq<Q>> = Seq::empty();
        while !b.is_zero()
            invariant
                (a@.len() == 0 && b@.len() == 0) <==> (self@.len() == 0 && rhs@.len() == 0),
                first ==> a@ == self@ && b@ == rhs@,
                !first ==> rhs@.len() > 0,
                !first && self@.len() == 0 ==> a@ == rhs@ && b@.len() == 0,
                remainder_sequence(chain, quots),
                chain[0] == self@,
                chain[1] == rhs@,
                chain[chain.len() - 2] == a@,
                chain.last() == b@,
            decreases b@.len(),
        {
            let (q, r) = a.divrem(&b);
            proof {
                if first && self@.len() == 0 {
                    assert(r@ == a@);
                }
                first = false;
                let ghost old_quots = quots;
                chain = chain.push(r@);
                quots = quots.push(q@);
                assert forall|i: int| 0 <= i < quots.len() implies chain[i] == poly_add(
                    poly_mul(#[trigger] quots[i], chain[i + 1]),
                    chain[i + 2],
                ) && chain[i + 2].len() < chain[i + 1].len() by {
                    if i < old_quots.len() {
                        assert(old_quots[i] == quots[i]);
                    }
                }
            }
            a = b;
            b = r;
        }
        let r = a.monic();
        proof {
            assert(euclid_last_remainder(self@, rhs@, a@));
        }
        r
    }

    /// The square-free part `self / gcd(self, self')` of a nonzero
    /// polynomial (same root set, every root simple).
    pub fn square_free_part(&self) -> (r: QPoly)
        requires
            self@.len() > 0,
        ensures
            r@.len() <= self@.len(),
    {
        let g = self.gcd(&self.derivative());
        if g.degree() == Some(0) {
            return self.clone();
        }
        let (q, _r) = self.divrem(&g);
        q
    }

    /// Yun's square-free decomposition: pairs `(multiplicity, factor)`
    /// with nonconstant factors and strictly increasing multiplicities
    /// (`self = lead · ∏ factor_i^i`). Constant factors are omitted, and a
    /// constant or zero polynomial has none.
    pub fn square_free_decomposition(&self) -> (r: Vec<(u32, QPoly)>)
        ensures
            self@.len() <= 1 ==> r@.len() == 0,
            forall|t: int| 0 <= t < r@.len() ==> (#[trigger] r@[t]).1@.len() >= 2 && r@[t].0 >= 1,
            forall|s: int, t: int| 0 <= s < t < r@.len() ==> r@[s].0 < r@[t].0,
    {
        if self.coeffs.len() <= 1 {
            return Vec::new();
        }
        let d = self.gcd(&self.derivative());
        if d.degree() == Some(0) {
            let mut out: Vec<(u32, QPoly)> = Vec::new();
            out.push((1, self.clone()));
            return out;
        }
        let (mut w, _r) = self.divrem(&d);
        let (mut y, _r2) = self.derivative().divrem(&d);
        let mut z = y.sub_poly(&w.derivative());
        let mut out: Vec<(u32, QPoly)> = Vec::new();
        let mut i: u32 = 1;
        while w.coeffs.len() > 1 && i < u32::MAX
            invariant
                i >= 1,
                forall|t: int| 0 <= t < out@.len() ==> (#[trigger] out@[t]).1@.len() >= 2 && out@[t].0 >= 1 && out@[t].0 < i,
                forall|s: int, t: int| 0 <= s < t < out@.len() ==> out@[s].0 < out@[t].0,
            decreases u32::MAX - i,
        {
            let a = w.gcd(&z);
            if a.coeffs.len() > 1 {
                out.push((i, a.clone()));
            }
            let (w2, _r3) = w.divrem(&a);
            w = w2;
            let (y2, _r4) = z.divrem(&a);
            y = y2;
            z = y.sub_poly(&w.derivative());
            i = i + 1;
        }
        out
    }

    /// The exact polynomial square root: `Some(g)` with `g² - self` the
    /// zero polynomial, when the candidate read off `gcd(self, self')`
    /// squares back to `self`. `0` is a square; odd degrees are not.
    #[verifier::spinoff_prover]
    pub fn sqrt_exact(&self) -> (r: Option<QPoly>)
        ensures
            self@.len() == 0 ==> (r matches Some(g) && g@.len() == 0),
            self@.len() > 0 && (self@.len() - 1) % 2 == 1 ==> r is None,
            self@.len() > 1 ==> (r matches Some(g) ==> poly_sub(poly_mul(g@, g@), self@).len() == 0),
            self@.len() == 1 ==> (r is Some <==> (self@[0].0 >= 0 && exists|a: nat, b: nat|
                #![trigger crate::rational::square(a), crate::rational::square(b)]
                crate::rational::square(a) == self@[0].0 && crate::rational::square(b) == self@[0].1)),
            self@.len() == 1 ==> (r matches Some(g) ==> poly_mul(g@, g@) == self@),
    {
        let n = self.coeffs.len();
        if n == 0 {
            return Some(QPoly::zero_poly());
        }
        let d = n - 1;
        if d % 2 != 0 {
            return None;
        }
        if d == 0 {
            let x = self.coeff(0);
            x.lowest_terms();
            self.is_trimmed();
            return match x.sqrt_exact() {
                Some(c) => {
                    let mut v: Vec<Rational> = Vec::new();
                    v.push(c);
                    let g = QPoly::new(v);
                    proof {
                        assert(qs(v@) =~= seq![c@]);
                        assert(self@ =~= seq![x@]);
                        lemma_constant_square(self@, x@, c@, g@);
                    }
                    Some(g)
                },
                None => None,
            };
        }
        let g = self.gcd(&self.derivative());
        if g.degree() != Some(d / 2) {
            return None;
        }
        let gl = g.coeff(d / 2);
        let sq = gl.mul(&gl);
        let _glen = g.coeffs.len();
        proof {
            assert(g@.len() == g.coeffs@.len());
            assert(g@.len() > 0);
            assert((g@.len() - 1) as usize == d / 2);
            assert(g@.len() == d / 2 + 1);
            assert(g@.last() == qint(1));
            assert(coef(g@, (d / 2) as int) == g@[(d / 2) as int]);
            assert(gl@ == qint(1));
            crate::rational::lemma_reduce_self(1);
            assert(1int * 1int == 1) by (nonlinear_arith);
            assert(sq@ == crate::rational::reduce(1, 1));
            assert(sq@ == qint(1));
        }
        let c = self.coeff(d).div(&sq);
        let root = match c.sqrt_exact() {
            Some(x) => x,
            None => {
                return None;
            },
        };
        let cand = g.scale(&root);
        if cand.mul_poly(&cand).sub_poly(self).is_zero() {
            Some(cand)
        } else {
            None
        }
    }

    /// Exact scalar resultant via a budgeted Sylvester determinant: `0` when
    /// either polynomial is zero, `1` for two constants, and otherwise the
    /// determinant of the `(m + n) x (m + n)` Sylvester matrix, rejected
    /// when that side exceeds the budget's matrix dimension.
    pub fn resultant(&self, rhs: &QPoly, budget: AlgebraBudget) -> (r: Result<Rational, AlgebraError>)
        ensures
            self@.len() > 0 && rhs@.len() > 0 && 1 <= self@.len() + rhs@.len() - 2 <= 2 ==> (r matches Ok(x) ==> x@
                == small_resultant(self@, rhs@)),
            (self@.len() == 0 || rhs@.len() == 0) ==> (r matches Ok(x) && x@ == qint(0)),
            self@.len() > 0 && rhs@.len() > 0 && self@.len() + rhs@.len() - 2 > budget.max_matrix_dimension ==> r matches Err(
                AlgebraError::ResultantDimension { .. },
            ),
            self@.len() == 1 && rhs@.len() == 1 ==> (r matches Ok(x) && x@ == qint(1)),
            self@.len() > 0 && rhs@.len() > 0 && self@.len() + rhs@.len() - 2 <= budget.max_matrix_dimension
                && (self@.len() + rhs@.len() - 2) * (self@.len() + rhs@.len() - 2) <= usize::MAX ==> r is Ok,
    {
        if self.is_zero() || rhs.is_zero() {
            return Ok(Rational::zero());
        }
        let m = self.coeffs.len() - 1;
        let n = rhs.coeffs.len() - 1;
        let dimension = match m.checked_add(n) {
            Some(x) => x,
            None => {
                return Err(AlgebraError::ResultantDimension { actual: usize::MAX, limit: budget.max_matrix_dimension });
            },
        };
        if dimension > budget.max_matrix_dimension {
            return Err(AlgebraError::ResultantDimension { actual: dimension, limit: budget.max_matrix_dimension });
        }
        if dimension == 0 {
            return Ok(Rational::one());
        }
        match dimension.checked_mul(dimension) {
            Some(_) => {},
            None => {
                return Err(AlgebraError::ResultantDimension { actual: dimension, limit: budget.max_matrix_dimension });
            },
        }
        let mut matrix = Mat::zeros(dimension, dimension);
        let ghost f = self@;
        let ghost g = rhs@;
        let mut row: usize = 0;
        while row < n
            invariant
                matrix.wf(),
                matrix.rows == dimension,
                matrix.cols == dimension,
                dimension == m + n,
                m + 1 == self.coeffs@.len(),
                n + 1 == rhs.coeffs@.len(),
                f == self@,
                g == rhs@,
                row <= n,
                forall|i: int, j: int|
                    0 <= i < dimension && 0 <= j < dimension ==> #[trigger] matrix.at(i, j) == (if i < row {
                        sylvester_entry(f, g, i, j)
                    } else {
                        qint(0)
                    }),
            decreases n - row,
        {
            let mut t: usize = 0;
            while t <= m
                invariant
                    matrix.wf(),
                    matrix.rows == dimension,
                    matrix.cols == dimension,
                    dimension == m + n,
                    m + 1 == self.coeffs@.len(),
                    n + 1 == rhs.coeffs@.len(),
                    f == self@,
                    g == rhs@,
                    row < n,
                    t <= m + 1,
                    forall|i: int, j: int|
                        0 <= i < dimension && 0 <= j < dimension ==> #[trigger] matrix.at(i, j) == (if i < row {
                            sylvester_entry(f, g, i, j)
                        } else if i == row && row <= j < row + t {
                            f[m - (j - row)]
                        } else {
                            qint(0)
                        }),
                decreases m + 1 - t,
            {
                assert(f[m - t] == self.coeffs@[m - t]@);
                matrix.set(row, row + t, self.coeffs[m - t].clone());
                t = t + 1;
            }
            row = row + 1;
        }
        let mut row: usize = 0;
        while row < m
            invariant
                matrix.wf(),
                matrix.rows == dimension,
                matrix.cols == dimension,
                dimension == m + n,
                m + 1 == self.coeffs@.len(),
                n + 1 == rhs.coeffs@.len(),
                f == self@,
                g == rhs@,
                row <= m,
                forall|i: int, j: int|
                    0 <= i < dimension && 0 <= j < dimension ==> #[trigger] matrix.at(i, j) == (if i < n + row {
                        sylvester_entry(f, g, i, j)
                    } else {
                        qint(0)
                    }),
            decreases m - row,
        {
            let mut t: usize = 0;
            while t <= n
                invariant
                    matrix.wf(),
                    matrix.rows == dimension,
                    matrix.cols == dimension,
                    dimension == m + n,
                    m + 1 == self.coeffs@.len(),
                    n + 1 == rhs.coeffs@.len(),
                    f == self@,
                    g == rhs@,
                    row < m,
                    t <= n + 1,
                    forall|i: int, j: int|
                        0 <= i < dimension && 0 <= j < dimension ==> #[trigger] matrix.at(i, j) == (if i < n + row {
                            sylvester_entry(f, g, i, j)
                        } else if i == n + row && row <= j < row + t {
                            g[n - (j - row)]
                        } else {
                            qint(0)
                        }),
                decreases n + 1 - t,
            {
                assert(g[n - t] == rhs.coeffs@[n - t]@);
                matrix.set(n + row, row + t, rhs.coeffs[n - t].clone());
                t = t + 1;
            }
            row = row + 1;
        }
        match matrix.det_core(false, AlgebraBudget::unlimited()) {
            Ok(x) => Ok(x),
            Err(e) => {
                proof {
                    assert(false);
                }
                Err(e)
            },
        }
    }
}


/// Entry `(i, j)` of the Sylvester matrix of `f` (degree `m`) and `g`
/// (degree `n`), of size `m + n`: row `i < n` holds the coefficients of `f`,
/// highest degree first, starting in column `i`; row `n + i` those of `g`,
/// starting in column `i`; every other entry is zero.
pub open spec fn sylvester_entry(f: Seq<Q>, g: Seq<Q>, i: int, j: int) -> Q {
    let m = f.len() - 1;
    let n = g.len() - 1;
    if i < n {
        if i <= j <= i + m {
            f[m - (j - i)]
        } else {
            qint(0)
        }
    } else {
        if i - n <= j <= i - n + n {
            g[n - (j - (i - n))]
        } else {
            qint(0)
        }
    }
}

/// The resultant of two polynomials whose Sylvester matrix has size one or
/// two: that matrix's determinant, expanded over its entries.
pub open spec fn small_resultant(f: Seq<Q>, g: Seq<Q>) -> Q {
    if f.len() + g.len() - 2 == 1 {
        sylvester_entry(f, g, 0, 0)
    } else {
        qsub(
            qmul(sylvester_entry(f, g, 0, 0), sylvester_entry(f, g, 1, 1)),
            qmul(sylvester_entry(f, g, 0, 1), sylvester_entry(f, g, 1, 0)),
        )
    }
}

/// `p(aff)` for a coefficient list `p`, by Horner's rule over polynomials.
pub open spec fn compose(s: Seq<Q>, aff: Seq<Q>) -> Seq<Q>
    decreases s.len(),
{
    if s.len() == 0 {
        Seq::empty()
    } else {
        poly_add(poly_mul(compose(s.drop_first(), aff), aff), trim(seq![s[0]]))
    }
}

/// Sign-variation count and last nonzero sign after the first `n`
/// coefficients (zeros skipped).
pub open spec fn var_state(s: Seq<Q>, n: int) -> (nat, Option<Sign>)
    decreases n,
{
    if n <= 0 {
        (0, None)
    } else {
        let prev = var_state(s, n - 1);
        let sg = sign_of_int(s[n - 1].0);
        if sg == Sign::Zero {
            prev
        } else if prev.1 is Some && prev.1->0 != sg {
            ((prev.0 + 1) as nat, Some(sg))
        } else {
            (prev.0, Some(sg))
        }
    }
}

/// Number of sign variations in a coefficient list (zeros skipped).
pub open spec fn variations_spec(s: Seq<Q>) -> nat {
    var_state(s, s.len() as int).0
}

/// Number of leading zero coefficients.
pub open spec fn lead_zeros(s: Seq<Q>) -> nat
    decreases s.len(),
{
    if s.len() == 0 || s[0].0 != 0 {
        0
    } else {
        1 + lead_zeros(s.drop_first())
    }
}

/// The Descartes count of `p` on the open interval `(lo, hi)`: map
/// `(lo, hi)` onto `(0, 1)`, then onto `(0, ∞)` by `t = s/(1+s)`, drop the
/// roots at `s = 0`, and count sign variations.
pub open spec fn descartes_spec(p: Seq<Q>, lo: Q, hi: Q) -> nat {
    let q = compose(p, trim(seq![lo, qsub(hi, lo)]));
    let q1 = compose(q, trim(seq![qint(1), qint(-1)]));
    let r = compose(trim(q1.reverse()), trim(seq![qint(1), qint(1)]));
    let z = lead_zeros(r);
    let r2 = if z > 0 { trim(r.subrange(z as int, r.len() as int)) } else { r };
    variations_spec(r2)
}

/// The running maximum of `|p[i] / lead|` over `i < n`, from zero.
pub open spec fn cauchy_max(p: Seq<Q>, lead: Q, n: int) -> Q
    decreases n,
{
    if n <= 0 {
        qint(0)
    } else {
        let m = cauchy_max(p, lead, n - 1);
        let a = crate::rational::qabs(qdiv(p[n - 1], lead));
        if crate::rational::qlt(m, a) {
            a
        } else {
            m
        }
    }
}

/// The Cauchy bound `1 + max |p[i] / lead|` over the non-leading
/// coefficients.
pub open spec fn cauchy_spec(p: Seq<Q>) -> Q {
    qadd(qint(1), cauchy_max(p, p.last(), p.len() - 1))
}

impl QPoly {
    /// `p(a + b·x)`: affine composition.
    fn compose_affine(&self, a: &Rational, b: &Rational) -> (r: QPoly)
        ensures
            r@ == compose(self@, trim(seq![a@, b@])),
            r@.len() <= self@.len(),
    {
        let mut av: Vec<Rational> = Vec::new();
        av.push(a.clone());
        av.push(b.clone());
        proof {
            assert(qs(av@) =~= seq![a@, b@]);
            lemma_trim(seq![a@, b@]);
        }
        let affine = QPoly::new(av);
        let ghost s = self@;
        let n = self.coeffs.len();
        let mut acc = QPoly::zero_poly();
        let mut k: usize = n;
        proof {
            assert(s.subrange(k as int, s.len() as int) =~= Seq::<Q>::empty());
        }
        while k > 0
            invariant
                s == self@,
                n == s.len(),
                k <= n,
                affine@ == trim(seq![a@, b@]),
                affine@.len() <= 2,
                acc@ == compose(s.subrange(k as int, n as int), affine@),
                acc@.len() <= n - k,
            decreases k,
        {
            let mut cv: Vec<Rational> = Vec::new();
            cv.push(self.coeffs[k - 1].clone());
            proof {
                assert(qs(cv@) =~= seq![s[k - 1]]);
                lemma_trim(seq![s[k - 1]]);
            }
            let cpoly = QPoly::new(cv);
            let prod = acc.mul_poly(&affine);
            let ghost before = acc@;
            acc = prod.add_poly(&cpoly);
            proof {
                let t = s.subrange(k - 1, n as int);
                assert(t.drop_first() =~= s.subrange(k as int, n as int));
                assert(t[0] == s[k - 1]);
                crate::polymat::lemma_mul_len(before, affine@);
                crate::polymat::lemma_add_sub_len(prod@, cpoly@);
            }
            k = k - 1;
        }
        proof {
            assert(s.subrange(0, n as int) =~= s);
        }
        acc
    }

    /// `x^n · p(1/x)`: coefficient reversal.
    fn reverse(&self) -> (r: QPoly)
        ensures
            r@ == trim(self@.reverse()),
    {
        let n = self.coeffs.len();
        let mut v: Vec<Rational> = Vec::new();
        let mut k: usize = n;
        while k > 0
            invariant
                n == self@.len(),
                k <= n,
                v@.len() == n - k,
                forall|t: int| 0 <= t < n - k ==> #[trigger] v@[t]@ == self@[n - 1 - t],
            decreases k,
        {
            v.push(self.coeffs[k - 1].clone());
            k = k - 1;
        }
        proof {
            assert(qs(v@) =~= self@.reverse());
        }
        QPoly::new(v)
    }

    /// Number of sign variations in the coefficient list (zeros skipped).
    fn variations(&self) -> (r: usize)
        ensures
            r == variations_spec(self@),
    {
        let mut count: usize = 0;
        let mut last: Option<Sign> = None;
        let mut i: usize = 0;
        while i < self.coeffs.len()
            invariant
                i <= self@.len(),
                count <= i,
                (count as nat, last) == var_state(self@, i as int),
            decreases self@.len() - i,
        {
            let sg = self.coeffs[i].sign();
            if sg != Sign::Zero {
                match last {
                    Some(l) => {
                        if l != sg {
                            count = count + 1;
                        }
                    },
                    None => {},
                }
                last = Some(sg);
            }
            i = i + 1;
        }
        count
    }

    /// Descartes bound on the number of roots in the open interval
    /// `(lo, hi)`: `0` is proof of none; `1` on a square-free polynomial is
    /// proof of exactly one. Roots at the endpoints are excluded.
    fn descartes_in(&self, lo: &Rational, hi: &Rational) -> (r: usize)
        ensures
            r == descartes_spec(self@, lo@, hi@),
    {
        let q = self.compose_affine(lo, &hi.sub(lo));
        let q1 = q.compose_affine(&Rational::one(), &Rational::from_i64(-1));
        let mut r = q1.reverse().compose_affine(&Rational::one(), &Rational::one());
        let mut strip: usize = 0;
        proof {
            assert(r@.subrange(0, r@.len() as int) =~= r@);
        }
        while strip < r.coeffs.len() && r.coeffs[strip].is_zero()
            invariant
                strip <= r@.len(),
                lead_zeros(r@) == strip + lead_zeros(r@.subrange(strip as int, r@.len() as int)),
            decreases r@.len() - strip,
        {
            proof {
                let t = r@.subrange(strip as int, r@.len() as int);
                assert(t.drop_first() =~= r@.subrange(strip + 1, r@.len() as int));
                assert(t[0] == r.coeffs@[strip as int]@);
            }
            strip = strip + 1;
        }
        proof {
            let t = r@.subrange(strip as int, r@.len() as int);
            if strip < r@.len() {
                assert(t[0] == r.coeffs@[strip as int]@);
            }
            assert(lead_zeros(t) == 0);
        }
        if strip > 0 {
            let mut v: Vec<Rational> = Vec::new();
            let mut t: usize = strip;
            while t < r.coeffs.len()
                invariant
                    strip <= t <= r@.len(),
                    v@.len() == t - strip,
                    forall|u: int| 0 <= u < t - strip ==> #[trigger] v@[u]@ == r@[strip + u],
                decreases r@.len() - t,
            {
                v.push(r.coeffs[t].clone());
                t = t + 1;
            }
            proof {
                assert(qs(v@) =~= r@.subrange(strip as int, r@.len() as int));
            }
            r = QPoly::new(v);
        }
        r.variations()
    }

    /// Cauchy root bound: every real root lies strictly inside `(-B, B)`;
    /// `None` for the zero polynomial.
    fn cauchy_bound(&self) -> (r: Option<Rational>)
        ensures
            r is None <==> self@.len() == 0,
            r matches Some(b) ==> b@ == cauchy_spec(self@) && b@.0 > 0,
    {
        self.is_trimmed();
        let n = self.coeffs.len();
        if n == 0 {
            return None;
        }
        let lead = self.coeffs[n - 1].clone();
        let mut max = Rational::zero();
        let mut i: usize = 0;
        while i < n - 1
            invariant
                n == self@.len(),
                n >= 1,
                lead@ == self@.last(),
                lead@.0 != 0,
                i <= n - 1,
                max@ == cauchy_max(self@, self@.last(), i as int),
                max@.0 >= 0,
            decreases n - 1 - i,
        {
            let a = self.coeffs[i].div(&lead).abs();
            if max.lt(&a) {
                max = a;
            }
            i = i + 1;
        }
        max.lowest_terms();
        let b = Rational::one().add(&max);
        proof {
            assert(1 * max@.1 + max@.0 * 1 > 0);
            assert(1 * max@.1 > 0);
            crate::rational::lemma_reduce_sign(1 * max@.1 + max@.0 * 1, 1 * max@.1);
        }
        Some(b)
    }
}


/// Errors from root isolation.
#[derive(Copy, Clone, Debug, PartialEq, Eq, Structural)]
pub enum RootError {
    /// The zero polynomial vanishes everywhere: it has no isolated roots.
    ZeroPolynomial,
    /// Root isolation exceeded its explicit bisection budget.
    BudgetExceeded {
        /// Maximum permitted bisections.
        limit: usize,
    },
}

/// Validation failure for an immutable algebraic-root certificate; its view
/// is the reason.
#[derive(Copy, Clone, Debug, PartialEq, Eq)]
pub struct RootCertificateError {
    reason: &'static str,
}

impl RootError {
    /// The message: a zero polynomial has no isolated roots; or the
    /// bisection budget that was exceeded.
    pub open spec fn text(self) -> Seq<char> {
        match self {
            RootError::ZeroPolynomial => "zero polynomial has no isolated roots"@,
            RootError::BudgetExceeded { limit } => "root isolation exceeded bisection budget "@ + nat_spelling(
                limit as nat,
            ),
        }
    }

    /// The message of the error ([`RootError::text`]).
    pub fn to_string(&self) -> (r: String)
        ensures
            r@ == self.text(),
    {
        let mut out: Vec<char> = Vec::new();
        match self {
            RootError::ZeroPolynomial => {
                push_str(&mut out, "zero polynomial has no isolated roots");
            },
            RootError::BudgetExceeded { limit } => {
                push_str(&mut out, "root isolation exceeded bisection budget ");
                push_chars(&mut out, &nat_chars(*limit as u64));
            },
        }
        proof {
            assert(out@ =~= self.text());
        }
        crate::units::string_of(out.as_slice())
    }
}

impl RootCertificateError {
    /// The message: the certificate is invalid, and why.
    pub fn to_string(&self) -> (r: String)
        ensures
            r@ == "invalid real-root certificate: "@ + self@,
    {
        let mut out: Vec<char> = Vec::new();
        push_str(&mut out, "invalid real-root certificate: ");
        push_str(&mut out, self.reason);
        crate::units::string_of(out.as_slice())
    }
}

impl View for RootCertificateError {
    type V = Seq<char>;

    closed spec fn view(&self) -> Seq<char> {
        self.reason@
    }
}

/// Immutable, canonical projection of a certified real algebraic root.
#[derive(Debug, PartialEq, Eq)]
pub struct RealRootCertificate {
    /// Square-free polynomial defining the root.
    pub polynomial: QPoly,
    /// Exact lower isolating bound.
    pub lower: Rational,
    /// Exact upper isolating bound.
    pub upper: Rational,
    /// Multiplicity in the polynomial originally isolated.
    pub multiplicity: u32,
}

/// The midpoint `(lo + hi) · (1/2)`.
pub open spec fn midpoint(lo: Q, hi: Q) -> Q {
    qmul(qadd(lo, hi), (1, 2))
}

/// The exact sign of `p` at `x`.
pub open spec fn sign_at_spec(p: Seq<Q>, x: Q) -> Sign {
    sign_of_int(horner(p, x).0)
}

/// One bisection step of the bracket `(lo, hi)` of a root of `p`: a point
/// bracket stays; a midpoint that is a root becomes a point bracket;
/// otherwise the half on which the sign of `p` changes is kept.
pub open spec fn bisect(p: Seq<Q>, lo: Q, hi: Q) -> (Q, Q) {
    let m = midpoint(lo, hi);
    if lo == hi {
        (lo, hi)
    } else if horner(p, m).0 == 0 {
        (m, m)
    } else if sign_at_spec(p, lo) == sign_at_spec(p, m) {
        (m, hi)
    } else {
        (lo, m)
    }
}

/// `1 / 2`.
pub(crate) fn half() -> (r: Rational)
    ensures
        r@ == (1int, 2int),
{
    let r = Rational::from_ratio(1, 2);
    proof {
        crate::rational::lemma_half();
    }
    r
}

/// An isolated real root of a rational polynomial: an exact real algebraic
/// number, bracketed by `lo <= hi`. A point bracket `lo == hi` is an exact
/// rational root of the defining polynomial; otherwise the number is the
/// root of the defining polynomial inside the open interval `(lo, hi)`.
/// Refining methods take `&mut self`: the bracket shrinks, the polynomial
/// never changes.
#[derive(Debug)]
pub struct RealRoot {
    poly: QPoly,
    lo: Rational,
    hi: Rational,
    multiplicity: u32,
}

/// `p` is nonzero at both ends of the bracket and takes opposite signs
/// there, so (by continuity) it vanishes somewhere strictly inside.
pub open spec fn sign_change(p: Seq<Q>, lo: Q, hi: Q) -> bool {
    &&& horner(p, lo).0 != 0
    &&& horner(p, hi).0 != 0
    &&& sign_at_spec(p, lo) != sign_at_spec(p, hi)
}

/// What every `RealRoot` satisfies: a nonzero defining polynomial, an
/// ordered bracket, a point bracket only at a root, an open bracket only
/// across a sign change of the defining polynomial, and a positive
/// multiplicity.
pub open spec fn root_wf(r: RealRoot) -> bool {
    &&& r.defining().len() > 0
    &&& qle(r.lower(), r.upper())
    &&& r.lower().1 > 0
    &&& r.upper().1 > 0
    &&& (r.lower() == r.upper() ==> horner(r.defining(), r.lower()).0 == 0)
    &&& (r.lower() != r.upper() ==> sign_change(r.defining(), r.lower(), r.upper()))
    &&& r.mult() >= 1
}

impl RealRoot {
    /// The defining polynomial.
    pub closed spec fn defining(self) -> Seq<Q> {
        self.poly@
    }

    /// The lower end of the bracket.
    pub closed spec fn lower(self) -> Q {
        self.lo@
    }

    /// The upper end of the bracket.
    pub closed spec fn upper(self) -> Q {
        self.hi@
    }

    /// The recorded multiplicity.
    pub closed spec fn mult(self) -> u32 {
        self.multiplicity
    }

    #[verifier::type_invariant]
    closed spec fn certified(self) -> bool {
        &&& self.poly@.len() > 0
        &&& qle(self.lo@, self.hi@)
        &&& self.lo@ == self.hi@ ==> horner(self.poly@, self.lo@).0 == 0
        &&& self.lo@ != self.hi@ ==> sign_change(self.poly@, self.lo@, self.hi@)
        &&& self.multiplicity >= 1
    }

    /// Every root is well formed (a no-op exposing the fact).
    pub fn well_formed(&self)
        ensures
            root_wf(*self),
    {
        proof {
            use_type_invariant(self);
        }
        self.lo.lowest_terms();
        self.hi.lowest_terms();
    }

    fn from_parts(poly: QPoly, lo: Rational, hi: Rational, multiplicity: u32) -> (r: RealRoot)
        requires
            poly@.len() > 0,
            qle(lo@, hi@),
            lo@ == hi@ ==> horner(poly@, lo@).0 == 0,
            lo@ != hi@ ==> sign_change(poly@, lo@, hi@),
            multiplicity >= 1,
        ensures
            r.defining() == poly@,
            r.lower() == lo@,
            r.upper() == hi@,
            r.mult() == multiplicity,
    {
        RealRoot { poly, lo, hi, multiplicity }
    }

    /// Shrink the bracket to the point `c`, a root of the defining
    /// polynomial.
    fn set_point(&mut self, c: Rational)
        requires
            horner(old(self).defining(), c@).0 == 0,
        ensures
            final(self).defining() == old(self).defining(),
            final(self).mult() == old(self).mult(),
            final(self).lower() == c@,
            final(self).upper() == c@,
    {
        let mut previous = RealRoot::exact_rational(Rational::zero());
        std::mem::swap(self, &mut previous);
        proof {
            use_type_invariant(&previous);
        }
        let RealRoot { poly, lo: _, hi: _, multiplicity } = previous;
        let c2 = c.clone();
        *self = RealRoot::from_parts(poly, c, c2, multiplicity);
    }

    /// Project the refinement state into an immutable certificate.
    pub fn certificate(&self) -> (r: RealRootCertificate)
        ensures
            r.polynomial@ == self.defining(),
            r.lower@ == self.lower(),
            r.upper@ == self.upper(),
            r.multiplicity == self.mult(),
    {
        RealRootCertificate {
            polynomial: self.poly.clone(),
            lower: self.lo.clone(),
            upper: self.hi.clone(),
            multiplicity: self.multiplicity,
        }
    }

    /// Validate and restore a certificate. The checks run in order: a
    /// nonzero polynomial, a positive multiplicity, ordered bounds, and then
    /// either a point bound at a root or an open interval with nonzero
    /// endpoint values of opposite signs whose Descartes count is exactly
    /// one.
    pub fn from_certificate(certificate: RealRootCertificate) -> (r: Result<RealRoot, RootCertificateError>)
        ensures
            certificate.polynomial@.len() == 0 ==> (r matches Err(e) && e@ == "zero defining polynomial"@),
            certificate.polynomial@.len() > 0 && certificate.multiplicity == 0 ==> (r matches Err(e) && e@
                == "zero multiplicity"@),
            certificate.polynomial@.len() > 0 && certificate.multiplicity > 0 && qlt(certificate.upper@, certificate.lower@)
                ==> (r matches Err(e) && e@ == "reversed isolating bounds"@),
            certificate.polynomial@.len() > 0 && certificate.multiplicity > 0 && certificate.lower@ == certificate.upper@
                && horner(certificate.polynomial@, certificate.lower@).0 != 0 ==> (r matches Err(e) && e@
                == "point bound is not a polynomial root"@),
            certificate.polynomial@.len() > 0 && certificate.multiplicity > 0 && qlt(certificate.lower@, certificate.upper@)
                && (horner(certificate.polynomial@, certificate.lower@).0 == 0 || horner(certificate.polynomial@, certificate.upper@).0 == 0)
                ==> (r matches Err(e) && e@ == "non-point interval has a root on its boundary"@),
            certificate.polynomial@.len() > 0 && certificate.multiplicity > 0 && qlt(certificate.lower@, certificate.upper@)
                && horner(certificate.polynomial@, certificate.lower@).0 != 0 && horner(certificate.polynomial@, certificate.upper@).0 != 0
                && (descartes_spec(certificate.polynomial@, certificate.lower@, certificate.upper@) != 1
                || sign_at_spec(certificate.polynomial@, certificate.lower@) == sign_at_spec(certificate.polynomial@, certificate.upper@))
                ==> (r matches Err(e) && e@ == "interval does not isolate exactly one root"@),
            r is Ok <==> (certificate.polynomial@.len() > 0 && certificate.multiplicity > 0 && qle(certificate.lower@, certificate.upper@)
                && (certificate.lower@ == certificate.upper@ ==> horner(certificate.polynomial@, certificate.lower@).0 == 0)
                && (certificate.lower@ != certificate.upper@ ==> horner(certificate.polynomial@, certificate.lower@).0 != 0
                    && horner(certificate.polynomial@, certificate.upper@).0 != 0
                    && descartes_spec(certificate.polynomial@, certificate.lower@, certificate.upper@) == 1
                    && sign_at_spec(certificate.polynomial@, certificate.lower@) != sign_at_spec(certificate.polynomial@, certificate.upper@))),
            r matches Ok(x) ==> x.defining() == certificate.polynomial@ && x.lower() == certificate.lower@
                && x.upper() == certificate.upper@ && x.mult() == certificate.multiplicity,
    {
        certificate.lower.lowest_terms();
        certificate.upper.lowest_terms();
        if certificate.polynomial.is_zero() {
            return Err(RootCertificateError { reason: "zero defining polynomial" });
        }
        if certificate.multiplicity == 0 {
            return Err(RootCertificateError { reason: "zero multiplicity" });
        }
        if certificate.upper.lt(&certificate.lower) {
            return Err(RootCertificateError { reason: "reversed isolating bounds" });
        }
        if certificate.lower == certificate.upper {
            if certificate.polynomial.sign_at(&certificate.lower) != Sign::Zero {
                return Err(RootCertificateError { reason: "point bound is not a polynomial root" });
            }
        } else {
            let sign_lower = certificate.polynomial.sign_at(&certificate.lower);
            let sign_upper = certificate.polynomial.sign_at(&certificate.upper);
            if sign_lower == Sign::Zero || sign_upper == Sign::Zero {
                return Err(RootCertificateError { reason: "non-point interval has a root on its boundary" });
            }
            // A single simple root inside is also a sign change across the
            // bracket; the comparison of end signs states it.
            if certificate.polynomial.descartes_in(&certificate.lower, &certificate.upper) != 1 || sign_lower == sign_upper {
                return Err(RootCertificateError { reason: "interval does not isolate exactly one root" });
            }
        }
        Ok(RealRoot::from_parts(
            certificate.polynomial,
            certificate.lower,
            certificate.upper,
            certificate.multiplicity,
        ))
    }

    /// An exact rational value as a point-bracketed root of `x - r`.
    pub fn exact_rational(r: Rational) -> (x: RealRoot)
        ensures
            x.defining() == seq![qneg(r@), qint(1)],
            x.lower() == r@,
            x.upper() == r@,
            x.mult() == 1,
    {
        r.lowest_terms();
        let mut v: Vec<Rational> = Vec::new();
        v.push(r.neg());
        v.push(Rational::one());
        let ghost s = seq![qneg(r@), qint(1)];
        proof {
            assert(qs(v@) =~= s);
            assert(trim(s) == s);
            lemma_root_of_linear(r@);
        }
        let poly = QPoly::new(v);
        let lo = r.clone();
        RealRoot::from_parts(poly, lo, r, 1)
    }

    /// Is the root exactly rational (a point bracket)?
    pub fn is_exact(&self) -> (r: bool)
        ensures
            r == (self.lower() == self.upper()),
    {
        self.lo == self.hi
    }

    /// The exact rational value, when the bracket is a point.
    pub fn value(&self) -> (r: Option<&Rational>)
        ensures
            r is Some <==> self.lower() == self.upper(),
            r matches Some(v) ==> v@ == self.lower(),
    {
        if self.is_exact() {
            Some(&self.lo)
        } else {
            None
        }
    }

    /// Lower bound (equal to the root when exact; otherwise strict).
    pub fn lo(&self) -> (r: &Rational)
        ensures
            r@ == self.lower(),
    {
        &self.lo
    }

    /// Upper bound.
    pub fn hi(&self) -> (r: &Rational)
        ensures
            r@ == self.upper(),
    {
        &self.hi
    }

    /// Multiplicity in the polynomial whose roots were isolated.
    pub fn multiplicity(&self) -> (r: u32)
        ensures
            r == self.mult(),
    {
        self.multiplicity
    }

    /// The defining polynomial.
    pub fn defining_poly(&self) -> (r: &QPoly)
        ensures
            r@ == self.defining(),
    {
        &self.poly
    }

    /// One bisection step ([`bisect`]); no change on a point bracket.
    pub fn refine(&mut self)
        ensures
            final(self).defining() == old(self).defining(),
            final(self).mult() == old(self).mult(),
            (final(self).lower(), final(self).upper()) == bisect(old(self).defining(), old(self).lower(), old(self).upper()),
    {
        proof {
            use_type_invariant(&*self);
        }
        self.lo.lowest_terms();
        self.hi.lowest_terms();
        if self.is_exact() {
            return;
        }
        let mid = self.lo.add(&self.hi).mul(&half());
        proof {
            crate::rational::lemma_qle_ne(self.lo@, self.hi@);
            crate::rational::lemma_midpoint(self.lo@, self.hi@);
        }
        proof {
            crate::rational::lemma_qle_ne(self.lo@, self.hi@);
            lemma_bisect_keeps_sign_change(self.poly@, self.lo@, self.hi@);
        }
        let sm = self.poly.sign_at(&mid);
        match sm {
            Sign::Zero => {
                self.set_point(mid);
            },
            _ => {
                if self.poly.sign_at(&self.lo) == sm {
                    self.lo = mid;
                } else {
                    self.hi = mid;
                }
            },
        }
    }
}

impl Clone for RealRoot {
    fn clone(&self) -> (r: Self)
        ensures
            r.defining() == self.defining(),
            r.lower() == self.lower(),
            r.upper() == self.upper(),
            r.mult() == self.mult(),
    {
        proof {
            use_type_invariant(self);
        }
        RealRoot { poly: self.poly.clone(), lo: self.lo.clone(), hi: self.hi.clone(), multiplicity: self.multiplicity }
    }
}

/// `x - r` vanishes at `r`.
proof fn lemma_root_of_linear(r: Q)
    requires
        canonical(r),
    ensures
        horner(seq![qneg(r), qint(1)], r).0 == 0,
{
    let s = seq![qneg(r), qint(1)];
    let t = s.drop_first();
    assert(t =~= seq![qint(1)]);
    assert(t.drop_first() =~= Seq::<Q>::empty());
    assert(horner(t.drop_first(), r) == qint(0));
    assert(0 * r.0 == 0);
    crate::rational::lemma_reduce_zero(1 * r.1);
    assert(qmul(qint(0), r) == qint(0));
    crate::rational::lemma_reduce_self(1);
    assert(qadd(qint(0), qint(1)) == qint(1));
    assert(horner(t, r) == qint(1));
    assert(1 * r.0 == r.0 && 1 * r.1 == r.1);
    crate::rational::lemma_reduce_canonical(r);
    assert(qmul(qint(1), r) == r);
    assert(r.0 * r.1 + (-r.0) * r.1 == 0) by (nonlinear_arith);
    assert(r.1 * r.1 > 0) by (nonlinear_arith)
        requires
            r.1 > 0,
    ;
    crate::rational::lemma_reduce_zero(r.1 * r.1);
}


/// The rational of least denominator strictly inside `(lo, hi)`, by the
/// Stern–Brocot / continued-fraction descent: `None` when the interval is
/// empty, `0` when it straddles zero, and otherwise a rational strictly
/// between the ends.
pub fn simplest_rational_in(lo: &Rational, hi: &Rational) -> (r: Option<Rational>)
    ensures
        r is None <==> !qlt(lo@, hi@),
        r matches Some(c) ==> qlt(lo@, c@) && qlt(c@, hi@),
        qlt(lo@, qint(0)) && qlt(qint(0), hi@) ==> (r matches Some(c) && c@ == qint(0)),
{
    lo.lowest_terms();
    hi.lowest_terms();
    if !lo.lt(hi) {
        proof {
            if qlt(lo@, qint(0)) && qlt(qint(0), hi@) {
                assert(qlt(lo@, hi@)) by (nonlinear_arith)
                    requires
                        lo@.0 * 1 < 0 * lo@.1,
                        0 * hi@.1 < hi@.0 * 1,
                        lo@.1 > 0,
                        hi@.1 > 0,
                ;
            }
        }
        return None;
    }
    let zero = Rational::zero();
    if lo.lt(&zero) && zero.lt(hi) {
        return Some(zero);
    }
    if !zero.lt(hi) {
        let nh = hi.neg();
        let nl = lo.neg();
        proof {
            assert(qlt(nh@, nl@)) by (nonlinear_arith)
                requires
                    nh@ == (-hi@.0, hi@.1),
                    nl@ == (-lo@.0, lo@.1),
                    lo@.0 * hi@.1 < hi@.0 * lo@.1,
            ;
            assert(hi@.0 <= 0) by (nonlinear_arith)
                requires
                    !(0 * hi@.1 < hi@.0 * 1),
            ;
        }
        let c = simplest_nonneg(&nh, &nl);
        let r = c.neg();
        proof {
            assert(qlt(lo@, r@) && qlt(r@, hi@)) by (nonlinear_arith)
                requires
                    r@ == (-c@.0, c@.1),
                    nh@ == (-hi@.0, hi@.1),
                    nl@ == (-lo@.0, lo@.1),
                    nh@.0 * c@.1 < c@.0 * nh@.1,
                    c@.0 * nl@.1 < nl@.0 * c@.1,
            ;
        }
        Some(r)
    } else {
        proof {
            assert(lo@.0 >= 0) by (nonlinear_arith)
                requires
                    !(lo@.0 * 1 < 0 * lo@.1),
                    lo@.1 > 0,
            ;
        }
        Some(simplest_nonneg(lo, hi))
    }
}

/// [`simplest_rational_in`] on `0 <= lo < hi`.
fn simplest_nonneg(lo: &Rational, hi: &Rational) -> (r: Rational)
    requires
        lo@.0 >= 0,
        qlt(lo@, hi@),
    ensures
        qlt(lo@, r@),
        qlt(r@, hi@),
    decreases lo@.1 + hi@.1,
{
    lo.lowest_terms();
    hi.lowest_terms();
    let ghost a = lo@.0;
    let ghost b = lo@.1;
    let ghost c = hi@.0;
    let ghost d = hi@.1;
    let flr = lo.floor();
    flr.lowest_terms();
    let ghost fl = a / b;
    proof {
        vstd::arithmetic::div_mod::lemma_fundamental_div_mod(a, b);
        vstd::arithmetic::div_mod::lemma_mod_pos_bound(a, b);
        assert(fl * b <= a && a < (fl + 1) * b) by (nonlinear_arith)
            requires
                a == b * fl + a % b,
                0 <= a % b < b,
        ;
        vstd::arithmetic::div_mod::lemma_div_pos_is_pos(a, b);
    }
    let one = Rational::one();
    let next = flr.add(&one);
    proof {
        assert(flr@ == qint(fl));
        assert(one@ == qint(1));
        assert(fl * 1 + 1 * 1 == fl + 1);
        crate::rational::lemma_reduce_int(fl + 1);
        assert(next@ == qint(fl + 1));
    }
    if next.lt(hi) {
        proof {
            assert(qlt(lo@, next@)) by (nonlinear_arith)
                requires
                    a < (fl + 1) * b,
                    next@ == (fl + 1, 1int),
                    lo@ == (a, b),
            ;
        }
        return next;
    }
    let ghost n = c - fl * d;
    proof {
        assert(c <= (fl + 1) * d) by (nonlinear_arith)
            requires
                !((fl + 1) * d < c * 1),
        ;
        assert(n > 0) by (nonlinear_arith)
            requires
                a * d < c * b,
                fl * b <= a,
                b > 0,
                d > 0,
                n == c - fl * d,
        ;
        assert(n <= d) by (nonlinear_arith)
            requires
                c <= (fl + 1) * d,
                n == c - fl * d,
        ;
    }
    let hi_f = hi.sub(&flr);
    proof {
        assert(hi_f@ == crate::rational::reduce(n, d));
        crate::rational::lemma_reduce_qeq(n, d);
        crate::rational::lemma_reduce_sign(n, d);
        crate::rational::lemma_reduce_le(n, d);
        assert(hi_f@.0 <= hi_f@.1) by (nonlinear_arith)
            requires
                hi_f@.0 * d == n * hi_f@.1,
                n <= d,
                d > 0,
                hi_f@.1 > 0,
        ;
    }
    if *lo == flr {
        let inv = one.div(&hi_f);
        proof {
            crate::rational::lemma_qdiv_one(hi_f@);
            assert(crate::rational::qeq((hi_f@.1, hi_f@.0), (d, n))) by (nonlinear_arith)
                requires
                    hi_f@.0 * d == n * hi_f@.1,
            ;
            crate::rational::lemma_qeq_trans(inv@, (hi_f@.1, hi_f@.0), (d, n));
        }
        let f = inv.floor();
        let ghost fv = inv@.0 / inv@.1;
        proof {
            vstd::arithmetic::div_mod::lemma_fundamental_div_mod(inv@.0, inv@.1);
            vstd::arithmetic::div_mod::lemma_mod_pos_bound(inv@.0, inv@.1);
            vstd::arithmetic::div_mod::lemma_div_pos_is_pos(inv@.0, inv@.1);
            assert(inv@.0 < (fv + 1) * inv@.1) by (nonlinear_arith)
                requires
                    inv@.0 == inv@.1 * fv + inv@.0 % inv@.1,
                    inv@.0 % inv@.1 < inv@.1,
            ;
            assert(qlt(inv@, (fv + 1, 1int)));
            crate::rational::lemma_qlt_congr(inv@, (d, n), (fv + 1, 1int));
            assert(d < (fv + 1) * n);
        }
        let y = f.add(&one);
        proof {
            crate::rational::lemma_reduce_int(fv + 1);
            assert(y@ == qint(fv + 1));
        }
        let w = one.div(&y);
        proof {
            crate::rational::lemma_qdiv_one(y@);
        }
        let r = flr.add(&w);
        proof {
            let yy = fv + 1;
            assert(lo@ == (fl, 1int));
            assert(r@ == crate::rational::reduce(fl * w@.1 + w@.0 * 1, 1 * w@.1));
            crate::rational::lemma_reduce_qeq(fl * w@.1 + w@.0 * 1, 1 * w@.1);
            assert(w@.0 * yy == 1 * w@.1);
            assert(crate::rational::qeq((fl * w@.1 + w@.0 * 1, 1 * w@.1), (fl * yy + 1, yy))) by (nonlinear_arith)
                requires
                    w@.0 * yy == 1 * w@.1,
            ;
            crate::rational::lemma_qeq_trans(r@, (fl * w@.1 + w@.0 * 1, 1 * w@.1), (fl * yy + 1, yy));
            assert(qlt(lo@, (fl * yy + 1, yy))) by (nonlinear_arith)
                requires
                    lo@ == (fl, 1int),
            ;
            assert(qlt((fl * yy + 1, yy), hi@)) by (nonlinear_arith)
                requires
                    d < yy * n,
                    c == n + fl * d,
                    hi@ == (c, d),
            ;
            crate::rational::lemma_qlt_congr(r@, (fl * yy + 1, yy), lo@);
            crate::rational::lemma_qlt_congr(r@, (fl * yy + 1, yy), hi@);
        }
        return r;
    }
    let ghost m = a - fl * b;
    proof {
        crate::rational::lemma_reduce_int(fl);
        if a == fl * b {
            crate::rational::lemma_canonical_unique(lo@, flr@);
        }
        assert(0 < m < b);
    }
    let lo_f = lo.sub(&flr);
    proof {
        assert(lo_f@ == crate::rational::reduce(m, b));
        crate::rational::lemma_reduce_qeq(m, b);
        crate::rational::lemma_reduce_sign(m, b);
        crate::rational::lemma_reduce_le(m, b);
        assert(lo_f@.0 < lo_f@.1) by (nonlinear_arith)
            requires
                lo_f@.0 * b == m * lo_f@.1,
                m < b,
                b > 0,
                lo_f@.1 > 0,
        ;
    }
    let inv_hi = one.div(&hi_f);
    let inv_lo = one.div(&lo_f);
    proof {
        crate::rational::lemma_qdiv_one(hi_f@);
        crate::rational::lemma_qdiv_one(lo_f@);
        assert(m * d < n * b) by (nonlinear_arith)
            requires
                a * d < c * b,
                m == a - fl * b,
                n == c - fl * d,
        ;
        // lo_f < hi_f by value
        crate::rational::lemma_qlt_congr(lo_f@, (m, b), hi_f@);
        crate::rational::lemma_qlt_congr(hi_f@, (n, d), (m, b));
        assert(qlt(lo_f@, hi_f@));
        assert(qlt((hi_f@.1, hi_f@.0), (lo_f@.1, lo_f@.0))) by (nonlinear_arith)
            requires
                lo_f@.0 * hi_f@.1 < hi_f@.0 * lo_f@.1,
        ;
        crate::rational::lemma_qlt_congr(inv_hi@, (hi_f@.1, hi_f@.0), (lo_f@.1, lo_f@.0));
        crate::rational::lemma_qlt_congr(inv_lo@, (lo_f@.1, lo_f@.0), inv_hi@);
        assert(qlt(inv_hi@, inv_lo@));
        assert(inv_hi@.1 + inv_lo@.1 < lo@.1 + hi@.1);
    }
    let y = simplest_nonneg(&inv_hi, &inv_lo);
    y.lowest_terms();
    proof {
        assert(y@.0 > 0) by (nonlinear_arith)
            requires
                inv_hi@.0 * y@.1 < y@.0 * inv_hi@.1,
                inv_hi@.0 > 0,
                y@.1 > 0,
                inv_hi@.1 > 0,
        ;
    }
    let w = one.div(&y);
    let r = flr.add(&w);
    proof {
        crate::rational::lemma_qdiv_one(y@);
        let y0 = y@.0;
        let y1 = y@.1;
        assert(r@ == crate::rational::reduce(fl * w@.1 + w@.0 * 1, 1 * w@.1));
        crate::rational::lemma_reduce_qeq(fl * w@.1 + w@.0 * 1, 1 * w@.1);
        assert(w@.0 * y0 == y1 * w@.1);
        assert(crate::rational::qeq((fl * w@.1 + w@.0 * 1, 1 * w@.1), (fl * y0 + y1, y0))) by (nonlinear_arith)
            requires
                w@.0 * y0 == y1 * w@.1,
        ;
        crate::rational::lemma_qeq_trans(r@, (fl * w@.1 + w@.0 * 1, 1 * w@.1), (fl * y0 + y1, y0));
        // y < inv_lo ~ (b, m); inv_hi ~ (d, n) < y
        assert(crate::rational::qeq((lo_f@.1, lo_f@.0), (b, m))) by (nonlinear_arith)
            requires
                lo_f@.0 * b == m * lo_f@.1,
        ;
        crate::rational::lemma_qeq_trans(inv_lo@, (lo_f@.1, lo_f@.0), (b, m));
        crate::rational::lemma_qlt_congr(inv_lo@, (b, m), y@);
        assert(qlt(y@, (b, m)));
        assert(crate::rational::qeq((hi_f@.1, hi_f@.0), (d, n))) by (nonlinear_arith)
            requires
                hi_f@.0 * d == n * hi_f@.1,
        ;
        crate::rational::lemma_qeq_trans(inv_hi@, (hi_f@.1, hi_f@.0), (d, n));
        crate::rational::lemma_qlt_congr(inv_hi@, (d, n), y@);
        assert(qlt((d, n), y@));
        assert(qlt(lo@, (fl * y0 + y1, y0))) by (nonlinear_arith)
            requires
                y0 * m < b * y1,
                a == m + fl * b,
                lo@ == (a, b),
        ;
        assert(qlt((fl * y0 + y1, y0), hi@)) by (nonlinear_arith)
            requires
                d * y1 < y0 * n,
                c == n + fl * d,
                hi@ == (c, d),
        ;
        crate::rational::lemma_qlt_congr(r@, (fl * y0 + y1, y0), lo@);
        crate::rational::lemma_qlt_congr(r@, (fl * y0 + y1, y0), hi@);
    }
    r
}


/// The running lcm of the denominators of the first `n` coefficients,
/// from `1`, each step `l / gcd(l, den) · den` (a zero gcd read as `1`).
pub open spec fn den_lcm(p: Seq<Q>, n: int) -> nat
    decreases n,
{
    if n <= 0 {
        1
    } else {
        let l = den_lcm(p, n - 1);
        let d = p[n - 1].1 as nat;
        let g = crate::rational::gcd(l, d);
        (l / (if g == 0 { 1 } else { g })) * d
    }
}

/// `|lead numerator · (lcm / lead denominator)|`: the leading coefficient of
/// the integer-cleared polynomial.
pub open spec fn cleared_lead(p: Seq<Q>) -> nat {
    crate::rational::abs(p.last().0 * (den_lcm(p, p.len() as int) as int / p.last().1))
}

/// Euclid's gcd of two nonnegative integers; `1` when both vanish.
fn gcd_int(a: &Rational, b: &Rational) -> (r: Rational)
    requires
        a@.1 == 1,
        b@.1 == 1,
        a@.0 >= 0,
        b@.0 >= 0,
    ensures
        r@ == qint(
            if crate::rational::gcd(a@.0 as nat, b@.0 as nat) == 0 {
                1
            } else {
                crate::rational::gcd(a@.0 as nat, b@.0 as nat) as int
            },
        ),
{
    let mut x = a.clone();
    let mut y = b.clone();
    while !y.is_zero()
        invariant
            x@.1 == 1,
            y@.1 == 1,
            x@.0 >= 0,
            y@.0 >= 0,
            crate::rational::gcd(x@.0 as nat, y@.0 as nat) == crate::rational::gcd(a@.0 as nat, b@.0 as nat),
        decreases y@.0,
    {
        let t = x.int_rem(&y);
        proof {
            vstd::arithmetic::div_mod::lemma_mod_pos_bound(x@.0, y@.0);
            assert((x@.0 as nat) % (y@.0 as nat) == (x@.0 % y@.0) as nat);
        }
        x = y;
        y = t;
    }
    if x.is_zero() {
        Rational::one()
    } else {
        x
    }
}

impl QPoly {
    /// `1/L²` for `L` the leading coefficient of the integer-cleared
    /// polynomial ([`cleared_lead`]). By the rational-root theorem the
    /// denominator of a rational root divides `L`, and two rationals with
    /// such denominators differ by at least this much. `None` for the zero
    /// polynomial (or a vanishing `L`).
    fn rational_root_separation(&self) -> (r: Option<Rational>)
        ensures
            r is None <==> (self@.len() == 0 || cleared_lead(self@) == 0),
            r matches Some(w) ==> w@ == crate::rational::reduce(1, (cleared_lead(self@) * cleared_lead(self@)) as int),
    {
        let n = self.coeffs.len();
        if n == 0 {
            return None;
        }
        let d = n - 1;
        let mut lcm = Rational::one();
        let mut i: usize = 0;
        while i <= d
            invariant
                d + 1 == self@.len(),
                n == self.coeffs@.len(),
                d + 1 == n,
                i <= d + 1,
                lcm@ == qint(den_lcm(self@, i as int) as int),
            decreases d + 1 - i,
        {
            self.coeffs[i].lowest_terms();
            let den = self.coeffs[i].denominator();
            let g = gcd_int(&lcm, &den);
            let step = lcm.int_div(&g);
            let next = step.mul(&den);
            proof {
                let l = den_lcm(self@, i as int);
                let dd = self@[i as int].1 as nat;
                assert(self@[i as int] == self.coeffs@[i as int]@);
                crate::rational::lemma_reduce_int(step@.0 * den@.0);
                assert(next@ == qint((l / (if crate::rational::gcd(l, dd) == 0 { 1 } else { crate::rational::gcd(l, dd) })) as int * dd));
                assert(den_lcm(self@, i + 1) == (l / (if crate::rational::gcd(l, dd) == 0 { 1 } else { crate::rational::gcd(l, dd) })) * dd);
            }
            lcm = next;
            i = i + 1;
        }
        let lead = self.coeff(d);
        lead.lowest_terms();
        let lden = lead.denominator();
        let scale = lcm.int_div(&lden);
        let lnum = lead.numerator();
        let prod = lnum.mul(&scale);
        let l = prod.abs();
        proof {
            assert(lead@ == self@.last());
            let x = lead@.0 * scale@.0;
            assert(scale@.0 == den_lcm(self@, self@.len() as int) as int / lead@.1);
            assert(prod@ == crate::rational::reduce(lnum@.0 * scale@.0, lnum@.1 * scale@.1));
            assert(lnum@.1 == 1 && scale@.1 == 1);
            assert(lnum@.1 * scale@.1 == 1) by (nonlinear_arith)
                requires
                    lnum@.1 == 1,
                    scale@.1 == 1,
            ;
            crate::rational::lemma_reduce_int(x);
            assert(prod@ == qint(x));
            assert(l@ == qint(cleared_lead(self@) as int));
        }
        if l.is_zero() {
            return None;
        }
        let sq = l.mul(&l);
        proof {
            let big = cleared_lead(self@) as int;
            crate::rational::lemma_reduce_int(big * big);
            assert(sq@ == crate::rational::reduce(l@.0 * l@.0, l@.1 * l@.1));
            assert(l@.1 * l@.1 == 1);
            assert(sq@ == qint(big * big));
            assert(big * big > 0) by (nonlinear_arith)
                requires
                    big > 0,
            ;
            assert(1 * (big * big) == big * big);
        }
        let r = Rational::one().div(&sq);
        Some(r)
    }
}


/// How many bisections [`RealRoot::collapse_if_rational`] spends looking
/// for an exact rational root before giving up.
pub const MAX_RATIONAL_COLLAPSE_STEPS: u32 = 48;

/// A bisection step stays inside the bracket.
proof fn lemma_bisect_within(p: Seq<Q>, lo: Q, hi: Q)
    requires
        canonical(lo),
        canonical(hi),
        qle(lo, hi),
    ensures
        qle(lo, bisect(p, lo, hi).0),
        qle(bisect(p, lo, hi).1, hi),
        qle(bisect(p, lo, hi).0, bisect(p, lo, hi).1),
{
    if lo != hi {
        crate::rational::lemma_qle_ne(lo, hi);
        crate::rational::lemma_midpoint(lo, hi);
    }
}

impl RealRoot {
    /// Collapse the bracket to an exact rational value when the root is
    /// rational and is found: the least-denominator rational inside the
    /// bracket is tested by exact evaluation, and the bracket is bisected
    /// and retested, until the bracket is narrower than the polynomial's
    /// rational-root separation or [`MAX_RATIONAL_COLLAPSE_STEPS`]
    /// bisections are spent. `true` iff the root is now exact. A point is
    /// only ever accepted where the polynomial vanishes exactly, so no root
    /// is ever fabricated.
    #[verifier::spinoff_prover]
    pub fn collapse_if_rational(&mut self) -> (r: bool)
        ensures
            r == (final(self).lower() == final(self).upper()),
            final(self).defining() == old(self).defining(),
            final(self).mult() == old(self).mult(),
            qle(old(self).lower(), final(self).lower()),
            qle(final(self).upper(), old(self).upper()),
            old(self).lower() == old(self).upper() ==> final(self).lower() == old(self).lower()
                && final(self).upper() == old(self).upper(),
            r ==> horner(final(self).defining(), final(self).lower()).0 == 0,
    {
        proof {
            use_type_invariant(&*self);
        }
        self.lo.lowest_terms();
        self.hi.lowest_terms();
        if self.is_exact() {
            return true;
        }
        let stop_width = self.poly.rational_root_separation();
        let mut k: u32 = 0;
        while k < MAX_RATIONAL_COLLAPSE_STEPS
            invariant
                self.defining() == old(self).defining(),
                self.mult() == old(self).mult(),
                canonical(old(self).lower()),
                canonical(old(self).upper()),
                qle(old(self).lower(), self.lower()),
                qle(self.upper(), old(self).upper()),
                self.lower() != self.upper(),
                old(self).lower() != old(self).upper(),
            decreases MAX_RATIONAL_COLLAPSE_STEPS - k,
        {
            proof {
                use_type_invariant(&*self);
            }
            self.lo.lowest_terms();
            self.hi.lowest_terms();
            match simplest_rational_in(&self.lo, &self.hi) {
                Some(c) => {
                    if self.poly.sign_at(&c) == Sign::Zero {
                        c.lowest_terms();
                        proof {
                            crate::rational::lemma_qle_trans(old(self).lower(), self.lower(), c@);
                            crate::rational::lemma_qle_trans(c@, self.upper(), old(self).upper());
                        }
                        self.set_point(c);
                        return true;
                    }
                },
                None => {},
            }
            match &stop_width {
                Some(w) => {
                    if self.hi.sub(&self.lo).lt(w) {
                        return false;
                    }
                },
                None => {},
            }
            let ghost before_lo = self.lower();
            let ghost before_hi = self.upper();
            proof {
                lemma_bisect_within(self.defining(), self.lower(), self.upper());
            }
            self.refine();
            self.lo.lowest_terms();
            self.hi.lowest_terms();
            proof {
                crate::rational::lemma_qle_trans(old(self).lower(), before_lo, self.lower());
                crate::rational::lemma_qle_trans(self.upper(), before_hi, old(self).upper());
            }
            if self.is_exact() {
                proof {
                    use_type_invariant(&*self);
                }
                return true;
            }
            k = k + 1;
        }
        false
    }
}


/// Brackets `a` and `b` overlap at most in an endpoint.
pub open spec fn apart(a: (Q, Q), b: (Q, Q)) -> bool {
    qle(a.1, b.0) || qle(b.1, a.0)
}

/// The bracket `(lower, upper)` of a root.
pub open spec fn bracket(r: RealRoot) -> (Q, Q) {
    (r.lower(), r.upper())
}

/// Lexicographic order of brackets, by lower and then upper end.
pub open spec fn bracket_le(a: (Q, Q), b: (Q, Q)) -> bool {
    qlt(a.0, b.0) || (a.0 == b.0 && qle(a.1, b.1))
}

/// Strict lexicographic order of brackets.
pub open spec fn bracket_lt(a: (Q, Q), b: (Q, Q)) -> bool {
    qlt(a.0, b.0) || (a.0 == b.0 && qlt(a.1, b.1))
}

/// Each bracket ends where the next one begins, or before.
pub open spec fn ascending(v: Seq<RealRoot>) -> bool {
    forall|k: int| 0 <= k < v.len() - 1 ==> qle(#[trigger] v[k].upper(), v[k + 1].lower())
}

/// The brackets of a stack entry.
spec fn entry(e: (Rational, Rational)) -> (Q, Q) {
    (e.0@, e.1@)
}

/// A sub-bracket of `e` stays apart from whatever `e` was apart from.
pub(crate) proof fn lemma_apart_sub(e: (Q, Q), sub: (Q, Q), x: (Q, Q))
    requires
        e.0.1 > 0,
        e.1.1 > 0,
        sub.0.1 > 0,
        sub.1.1 > 0,
        x.0.1 > 0,
        x.1.1 > 0,
        qle(e.0, sub.0),
        qle(sub.1, e.1),
        apart(e, x),
    ensures
        apart(sub, x),
        apart(x, sub),
{
    if qle(e.1, x.0) {
        crate::rational::lemma_qle_trans(sub.1, e.1, x.0);
    } else {
        crate::rational::lemma_qle_trans(x.1, e.0, sub.0);
    }
}

/// Apart brackets in bracket order: the first ends where the second begins,
/// or before.
proof fn lemma_apart_ordered(a: (Q, Q), b: (Q, Q))
    requires
        canonical(a.0),
        canonical(a.1),
        canonical(b.0),
        canonical(b.1),
        qle(a.0, a.1),
        qle(b.0, b.1),
        apart(a, b),
        bracket_le(a, b),
    ensures
        qle(a.1, b.0),
{
    if !qle(a.1, b.0) {
        assert(qle(b.1, a.0));
        if qlt(a.0, b.0) {
            crate::rational::lemma_qle_trans(b.0, b.1, a.0);
            assert(false) by (nonlinear_arith)
                requires
                    a.0.0 * b.0.1 < b.0.0 * a.0.1,
                    b.0.0 * a.0.1 <= a.0.0 * b.0.1,
            ;
        } else {
            crate::rational::lemma_qle_trans(a.1, b.1, a.0);
        }
    }
}

impl RealRoot {
    /// Is this root also a root of `h`? The zero polynomial vanishes
    /// everywhere; an exact root is tested by evaluation; otherwise the
    /// monic gcd of the two polynomials must be nonconstant and change sign
    /// across the bracket.
    pub fn is_root_of(&self, h: &QPoly) -> (r: bool)
        ensures
            h@.len() == 0 ==> r,
            h@.len() > 0 && self.lower() == self.upper() ==> r == (horner(h@, self.lower()).0 == 0),
    {
        if h.is_zero() {
            return true;
        }
        match self.value() {
            Some(v) => {
                return h.sign_at(v) == Sign::Zero;
            },
            None => {},
        }
        let g = self.poly.gcd(h);
        if g.coeffs.len() <= 1 {
            return false;
        }
        g.sign_at(&self.lo) != g.sign_at(&self.hi)
    }

    /// Record the multiplicity.
    fn set_multiplicity(&mut self, m: u32)
        requires
            m >= 1,
        ensures
            final(self).mult() == m,
            final(self).defining() == old(self).defining(),
            final(self).lower() == old(self).lower(),
            final(self).upper() == old(self).upper(),
    {
        proof {
            use_type_invariant(&*self);
        }
        self.multiplicity = m;
    }

    /// Bracket order.
    fn bracket_lt_exec(&self, other: &RealRoot) -> (r: bool)
        ensures
            r == bracket_lt(bracket(*self), bracket(*other)),
    {
        self.lo.lt(&other.lo) || (self.lo == other.lo && self.hi.lt(&other.hi))
    }
}

/// Two roots with the same defining polynomial, bracket and multiplicity.
pub open spec fn same_root(a: RealRoot, b: RealRoot) -> bool {
    &&& a.defining() == b.defining()
    &&& a.lower() == b.lower()
    &&& a.upper() == b.upper()
    &&& a.mult() == b.mult()
}

/// `x` is the same root as some entry of `list`.
pub open spec fn root_among(x: RealRoot, list: Seq<RealRoot>) -> bool {
    exists|j: int| 0 <= j < list.len() && same_root(x, #[trigger] list[j])
}

/// Every entry of `sorted` is one of `raw[..i]`.
#[verifier::opaque]
pub open spec fn from_raw(sorted: Seq<RealRoot>, raw: Seq<RealRoot>, i: int) -> bool {
    forall|k: int| 0 <= k < sorted.len() ==> exists|j: int| #![trigger raw[j]] 0 <= j < i && same_root(#[trigger] sorted[k], raw[j])
}

/// Every one of `raw[..i]` is an entry of `sorted`.
#[verifier::opaque]
pub open spec fn onto_raw(sorted: Seq<RealRoot>, raw: Seq<RealRoot>, i: int) -> bool {
    forall|j: int| 0 <= j < i ==> exists|k: int| #![trigger sorted[k]] 0 <= k < sorted.len() && same_root(sorted[k], #[trigger] raw[j])
}

/// The correspondence over all of `raw`, unfolded.
proof fn lemma_roots_correspond(sorted: Seq<RealRoot>, raw: Seq<RealRoot>)
    requires
        from_raw(sorted, raw, raw.len() as int),
        onto_raw(sorted, raw, raw.len() as int),
    ensures
        forall|k: int| 0 <= k < sorted.len() ==> root_among(#[trigger] sorted[k], raw),
        forall|j: int| 0 <= j < raw.len() ==> root_among(#[trigger] raw[j], sorted),
{
    reveal(from_raw);
    reveal(onto_raw);
    let n = raw.len() as int;
    assert forall|k: int| 0 <= k < sorted.len() implies root_among(#[trigger] sorted[k], raw) by {
        let j = choose|j: int| #![trigger raw[j]] 0 <= j < n && same_root(sorted[k], raw[j]);
        assert(same_root(sorted[k], raw[j]));
    }
    assert forall|j: int| 0 <= j < raw.len() implies root_among(#[trigger] raw[j], sorted) by {
        assert(0 <= j < n);
        let k = choose|k: int| #![trigger sorted[k]] 0 <= k < sorted.len() && same_root(sorted[k], raw[j]);
        assert(same_root(raw[j], sorted[k]));
    }
}

/// Inserting a copy of `raw[i]` keeps every entry one of `raw[..i+1]`.
proof fn lemma_insert_from_raw(old_sorted: Seq<RealRoot>, sorted: Seq<RealRoot>, raw: Seq<RealRoot>, i: int, pos: int, x: RealRoot)
    requires
        from_raw(old_sorted, raw, i),
        0 <= i < raw.len(),
        0 <= pos <= old_sorted.len(),
        sorted == old_sorted.insert(pos, x),
        same_root(x, raw[i]),
    ensures
        from_raw(sorted, raw, i + 1),
{
    reveal(from_raw);
    assert forall|k: int| 0 <= k < sorted.len() implies exists|j: int| 0 <= j < i + 1 && same_root(
        #[trigger] sorted[k],
        raw[j],
    ) by {
        if k < pos {
            let j = choose|j: int| 0 <= j < i && same_root(old_sorted[k], raw[j]);
            assert(sorted[k] == old_sorted[k]);
            assert(same_root(sorted[k], raw[j]));
        } else if k > pos {
            let j = choose|j: int| 0 <= j < i && same_root(old_sorted[k - 1], raw[j]);
            assert(sorted[k] == old_sorted[k - 1]);
            assert(same_root(sorted[k], raw[j]));
        } else {
            assert(sorted[k] == x);
            assert(same_root(sorted[k], raw[i]));
        }
    }
}

/// Inserting a copy of `raw[i]` keeps every one of `raw[..i+1]` an entry.
proof fn lemma_insert_onto_raw(old_sorted: Seq<RealRoot>, sorted: Seq<RealRoot>, raw: Seq<RealRoot>, i: int, pos: int, x: RealRoot)
    requires
        onto_raw(old_sorted, raw, i),
        0 <= i < raw.len(),
        0 <= pos <= old_sorted.len(),
        sorted == old_sorted.insert(pos, x),
        same_root(x, raw[i]),
    ensures
        onto_raw(sorted, raw, i + 1),
{
    reveal(onto_raw);
    assert forall|j: int| 0 <= j < i + 1 implies exists|k: int| 0 <= k < sorted.len() && same_root(
        sorted[k],
        #[trigger] raw[j],
    ) by {
        if j < i {
            let k = choose|k: int| 0 <= k < old_sorted.len() && same_root(old_sorted[k], raw[j]);
            if k < pos {
                assert(sorted[k] == old_sorted[k]);
                assert(same_root(sorted[k], raw[j]));
            } else {
                assert(sorted[k + 1] == old_sorted[k]);
                assert(same_root(sorted[k + 1], raw[j]));
            }
        } else {
            assert(sorted[pos] == x);
            assert(same_root(sorted[pos], raw[j]));
        }
    }
}

/// Pairwise apart brackets in ascending order, by stable insertion.
#[verifier::spinoff_prover]
fn sort_by_bracket(raw: &Vec<RealRoot>) -> (sorted: Vec<RealRoot>)
    requires
        forall|a: int, b: int|
            0 <= a < raw@.len() && 0 <= b < raw@.len() && a != b ==> apart(bracket(raw@[a]), bracket(raw@[b])),
        forall|a: int| 0 <= a < raw@.len() ==> canonical(#[trigger] raw@[a].lower()) && canonical(raw@[a].upper()),
    ensures
        ascending(sorted@),
        forall|k: int| 0 <= k < sorted@.len() ==> canonical(#[trigger] sorted@[k].lower()) && canonical(sorted@[k].upper())
            && qle(sorted@[k].lower(), sorted@[k].upper()),
        sorted@.len() == raw@.len(),
        forall|k: int| 0 <= k < sorted@.len() ==> root_among(#[trigger] sorted@[k], raw@),
        forall|j: int| 0 <= j < raw@.len() ==> root_among(#[trigger] raw@[j], sorted@),
{
    let mut sorted: Vec<RealRoot> = Vec::new();
    assert(from_raw(sorted@, raw@, 0)) by {
        reveal(from_raw);
    }
    assert(onto_raw(sorted@, raw@, 0)) by {
        reveal(onto_raw);
    }
    let mut i: usize = 0;
    while i < raw.len()
        invariant
            i <= raw@.len(),
            forall|a: int, b: int|
                0 <= a < raw@.len() && 0 <= b < raw@.len() && a != b ==> apart(bracket(raw@[a]), bracket(raw@[b])),
            forall|a: int| 0 <= a < raw@.len() ==> canonical(#[trigger] raw@[a].lower()) && canonical(raw@[a].upper()),
            ascending(sorted@),
            forall|k: int| 0 <= k < sorted@.len() ==> canonical(#[trigger] sorted@[k].lower()) && canonical(sorted@[k].upper())
                && qle(sorted@[k].lower(), sorted@[k].upper()),
            forall|k: int, j: int|
                0 <= k < sorted@.len() && i <= j < raw@.len() ==> apart(bracket(sorted@[k]), bracket(raw@[j])),
            sorted@.len() == i,
            from_raw(sorted@, raw@, i as int),
            onto_raw(sorted@, raw@, i as int),
        decreases raw@.len() - i,
    {
        let x = raw[i].clone();
        x.well_formed();
        let mut pos: usize = 0;
        while pos < sorted.len() && !x.bracket_lt_exec(&sorted[pos])
            invariant
                pos <= sorted@.len(),
                forall|k: int| 0 <= k < pos ==> !bracket_lt(bracket(x), bracket(#[trigger] sorted@[k])),
            decreases sorted@.len() - pos,
        {
            pos = pos + 1;
        }
        let ghost old_sorted = sorted@;
        proof {
            assert(bracket(x) == bracket(raw@[i as int]));
        }
        sorted.insert(pos, x);
        proof {
            old_sorted.insert_ensures(pos as int, x);
            assert(sorted@ == old_sorted.insert(pos as int, x));
            assert forall|k: int| 0 <= k < sorted@.len() - 1 implies qle(#[trigger] sorted@[k].upper(), sorted@[k + 1].lower()) by {
                if k + 1 < pos {
                    assert(sorted@[k] == old_sorted[k] && sorted@[k + 1] == old_sorted[k + 1]);
                } else if k + 1 == pos {
                    assert(sorted@[k] == old_sorted[k]);
                    assert(apart(bracket(old_sorted[k]), bracket(raw@[i as int])));
                    lemma_bracket_total(bracket(x), bracket(old_sorted[k]));
                    lemma_apart_ordered(bracket(old_sorted[k]), bracket(x));
                } else if k == pos {
                    assert(sorted@[k + 1] == old_sorted[k]);
                    assert(apart(bracket(old_sorted[k]), bracket(raw@[i as int])));
                    lemma_apart_ordered(bracket(x), bracket(old_sorted[k]));
                } else {
                    assert(sorted@[k] == old_sorted[k - 1] && sorted@[k + 1] == old_sorted[k]);
                }
            }
            assert forall|k: int| 0 <= k < sorted@.len() implies canonical(#[trigger] sorted@[k].lower()) && canonical(sorted@[k].upper())
                && qle(sorted@[k].lower(), sorted@[k].upper()) by {
                if k < pos {
                    assert(sorted@[k] == old_sorted[k]);
                } else if k > pos {
                    assert(sorted@[k] == old_sorted[k - 1]);
                }
            }
            assert forall|k: int, j: int|
                0 <= k < sorted@.len() && i + 1 <= j < raw@.len() implies apart(bracket(sorted@[k]), bracket(raw@[j])) by {
                if k < pos {
                    assert(sorted@[k] == old_sorted[k]);
                } else if k > pos {
                    assert(sorted@[k] == old_sorted[k - 1]);
                } else {
                    assert(apart(bracket(raw@[i as int]), bracket(raw@[j])));
                }
            }
            lemma_insert_from_raw(old_sorted, sorted@, raw@, i as int, pos as int, x);
            lemma_insert_onto_raw(old_sorted, sorted@, raw@, i as int, pos as int, x);
        }
        i = i + 1;
    }
    proof {
        lemma_roots_correspond(sorted@, raw@);
    }
    sorted
}

/// A bracketed root made exact when it is rational, with the multiplicity
/// of the first square-free factor it is a root of.
fn finish_root(root: &RealRoot, decomp: &Vec<(u32, QPoly)>) -> (r: RealRoot)
    requires
        forall|t: int| 0 <= t < decomp@.len() ==> (#[trigger] decomp@[t]).0 >= 1,
    ensures
        canonical(r.lower()),
        canonical(r.upper()),
        qle(root.lower(), r.lower()),
        qle(r.upper(), root.upper()),
{
    let mut r = root.clone();
    r.collapse_if_rational();
    let mut found: Option<u32> = None;
    let mut t: usize = 0;
    while t < decomp.len() && found.is_none()
        invariant
            t <= decomp@.len(),
            forall|u: int| 0 <= u < decomp@.len() ==> (#[trigger] decomp@[u]).0 >= 1,
            found matches Some(m) ==> m >= 1,
        decreases decomp@.len() - t,
    {
        if r.is_root_of(&decomp[t].1) {
            found = Some(decomp[t].0);
        }
        t = t + 1;
    }
    match found {
        Some(m) => {
            r.set_multiplicity(m);
        },
        None => {},
    }
    r.well_formed();
    r.lo.lowest_terms();
    r.hi.lowest_terms();
    r
}

/// Descartes/VCA bisection of a square-free polynomial over its Cauchy
/// bracket, under a bisection budget. Exact rational roots met at
/// midpoints are recorded as points and deflated out in place; the
/// brackets found are pairwise apart.
#[verifier::spinoff_prover]
fn isolate_square_free(p: &QPoly, limit: usize) -> (r: Result<Vec<RealRoot>, RootError>)
    ensures
        r matches Err(e) ==> e == (RootError::BudgetExceeded { limit }),
        r matches Ok(v) ==> forall|i: int, j: int|
            0 <= i < v@.len() && 0 <= j < v@.len() && i != j ==> apart(bracket(v@[i]), bracket(v@[j])),
        r matches Ok(v) ==> forall|i: int|
            0 <= i < v@.len() ==> canonical(#[trigger] v@[i].lower()) && canonical(v@[i].upper()),
{
    let mut out: Vec<RealRoot> = Vec::new();
    if p.coeffs.len() <= 1 {
        return Ok(out);
    }
    let bound = match p.cauchy_bound() {
        Some(b) => b,
        None => {
            return Ok(out);
        },
    };
    bound.lowest_terms();
    let nb = bound.neg();
    nb.lowest_terms();
    proof {
        assert(qlt(nb@, bound@)) by (nonlinear_arith)
            requires
                nb@ == (-bound@.0, bound@.1),
                bound@.0 > 0,
                bound@.1 > 0,
        ;
    }
    let mut stack: Vec<(Rational, Rational)> = Vec::new();
    stack.push((nb, bound));
    let half = half();
    let mut p = p.clone();
    let mut bisections: usize = 0;
    while stack.len() > 0
        invariant
            p@.len() >= 2,
            bisections <= limit,
            half@ == (1int, 2int),
            forall|k: int| 0 <= k < stack@.len() ==> canonical(#[trigger] stack@[k].0@) && canonical(stack@[k].1@)
                && qlt(stack@[k].0@, stack@[k].1@),
            forall|i: int| 0 <= i < out@.len() ==> canonical(#[trigger] out@[i].lower()) && canonical(out@[i].upper()),
            forall|i: int, j: int|
                0 <= i < out@.len() && 0 <= j < out@.len() && i != j ==> apart(bracket(out@[i]), bracket(out@[j])),
            forall|i: int, j: int|
                0 <= i < stack@.len() && 0 <= j < stack@.len() && i != j ==> apart(entry(stack@[i]), entry(stack@[j])),
            forall|i: int, j: int|
                0 <= i < out@.len() && 0 <= j < stack@.len() ==> apart(bracket(out@[i]), entry(stack@[j])),
        decreases limit - bisections, stack@.len(),
    {
        let ghost old_stack = stack@;
        let ghost old_out = out@;
        let top = stack.pop();
        let (lo, hi) = match top {
            Some(e) => e,
            None => {
                return Ok(out);
            },
        };
        lo.lowest_terms();
        hi.lowest_terms();
        let ghost n = old_stack.len() - 1;
        proof {
            assert(stack@ =~= old_stack.subrange(0, n));
            assert(entry(old_stack[n]) == (lo@, hi@));
        }
        let count = p.descartes_in(&lo, &hi);
        let mut isolated = false;
        if count == 1 {
            let sl = p.sign_at(&lo);
            let sh = p.sign_at(&hi);
            isolated = sl != Sign::Zero && sh != Sign::Zero && sl != sh;
        }
        if count == 0 {
        } else if isolated {
            proof {
                assert(lo@ != hi@);
            }
            out.push(RealRoot::from_parts(p.clone(), lo, hi, 1));
            proof {
                assert forall|i: int, j: int|
                    0 <= i < out@.len() && 0 <= j < out@.len() && i != j implies apart(bracket(out@[i]), bracket(out@[j])) by {
                    if i == old_out.len() {
                        assert(apart(bracket(old_out[j]), entry(old_stack[n])));
                    } else if j == old_out.len() {
                        assert(apart(bracket(old_out[i]), entry(old_stack[n])));
                    }
                }
                assert forall|i: int, j: int|
                    0 <= i < out@.len() && 0 <= j < stack@.len() implies apart(bracket(out@[i]), entry(stack@[j])) by {
                    if i == old_out.len() {
                        assert(apart(entry(old_stack[n]), entry(old_stack[j])));
                    } else {
                        assert(apart(bracket(old_out[i]), entry(old_stack[j])));
                    }
                }
            }
        } else {
            if bisections >= limit {
                return Err(RootError::BudgetExceeded { limit });
            }
            bisections = bisections + 1;
            let mid = lo.add(&hi).mul(&half);
            mid.lowest_terms();
            proof {
                crate::rational::lemma_midpoint(lo@, hi@);
                assert(qle(lo@, mid@) && qle(mid@, hi@));
                crate::rational::lemma_qle_ne(lo@, hi@);
            }
            let s_mid = p.sign_at(&mid);
            if s_mid == Sign::Zero {
                let ghost out1 = out@;
                let m1 = mid.clone();
                let m2 = mid.clone();
                proof {
                    assert(horner(p@, mid@).0 == 0);
                    assert(m1@ == mid@ && m2@ == mid@);
                }
                out.push(RealRoot::from_parts(p.clone(), m1, m2, 1));
                proof {
                    let pt = (mid@, mid@);
                    assert forall|i: int, j: int|
                        0 <= i < out@.len() && 0 <= j < out@.len() && i != j implies apart(bracket(out@[i]), bracket(out@[j])) by {
                        if i == out1.len() {
                            assert(apart(bracket(out1[j]), entry(old_stack[n])));
                            lemma_apart_sub(entry(old_stack[n]), pt, bracket(out1[j]));
                        } else if j == out1.len() {
                            assert(apart(bracket(out1[i]), entry(old_stack[n])));
                            lemma_apart_sub(entry(old_stack[n]), pt, bracket(out1[i]));
                        }
                    }
                    assert forall|i: int, j: int|
                        0 <= i < out@.len() && 0 <= j < stack@.len() implies apart(bracket(out@[i]), entry(stack@[j])) by {
                        if i == out1.len() {
                            assert(apart(entry(old_stack[n]), entry(old_stack[j])));
                            lemma_apart_sub(entry(old_stack[n]), pt, entry(old_stack[j]));
                        } else {
                            assert(apart(bracket(out1[i]), entry(old_stack[j])));
                        }
                    }
                }
                let mut lv: Vec<Rational> = Vec::new();
                lv.push(mid.neg());
                lv.push(Rational::one());
                let linear = QPoly::new(lv);
                proof {
                    assert(qs(lv@) =~= seq![qneg(mid@), qint(1)]);
                    assert(trim(seq![qneg(mid@), qint(1)]) == seq![qneg(mid@), qint(1)]);
                }
                let (q, _rem) = p.divrem(&linear);
                p = q;
                if p.coeffs.len() <= 1 {
                    return Ok(out);
                }
            }
            let ghost out2 = out@;
            let ghost st2 = stack@;
            stack.push((lo.clone(), mid.clone()));
            stack.push((mid, hi));
            proof {
                let e = entry(old_stack[n]);
                let a = entry(stack@[n as int]);
                let b = entry(stack@[n + 1]);
                assert(a == (e.0, a.1) && b == (a.1, e.1));
                assert(qle(a.1, b.0)) by {
                    crate::rational::lemma_qle_trans(a.1, a.1, b.0);
                }
                assert forall|i: int, j: int|
                    0 <= i < stack@.len() && 0 <= j < stack@.len() && i != j implies apart(entry(stack@[i]), entry(stack@[j])) by {
                    if i >= n && j >= n {
                    } else if i >= n {
                        assert(apart(e, entry(old_stack[j])));
                        lemma_apart_sub(e, entry(stack@[i]), entry(old_stack[j]));
                    } else if j >= n {
                        assert(apart(e, entry(old_stack[i])));
                        lemma_apart_sub(e, entry(stack@[j]), entry(old_stack[i]));
                    } else {
                        assert(stack@[i] == st2[i] && stack@[j] == st2[j]);
                    }
                }
                assert forall|i: int, j: int|
                    0 <= i < out@.len() && 0 <= j < stack@.len() implies apart(bracket(out@[i]), entry(stack@[j])) by {
                    if j >= n {
                        if i < old_out.len() {
                            assert(apart(bracket(old_out[i]), e));
                            lemma_apart_sub(e, entry(stack@[j]), bracket(old_out[i]));
                        } else {
                            assert(bracket(out@[i]) == (a.1, a.1));
                            crate::rational::lemma_qle_trans(a.1, a.1, a.1);
                        }
                    } else {
                        assert(stack@[j] == st2[j]);
                    }
                }
            }
        }
    }
    Ok(out)
}


/// Bracket order is total: not below means at least.
proof fn lemma_bracket_total(a: (Q, Q), b: (Q, Q))
    requires
        canonical(a.0),
        canonical(a.1),
        canonical(b.0),
        canonical(b.1),
        !bracket_lt(a, b),
    ensures
        bracket_le(b, a),
{
    if a.0 != b.0 {
        crate::rational::lemma_qle_ne(b.0, a.0);
    }
}

/// Isolate all real roots of `p`, with their multiplicities in `p`, under
/// the default bisection budget. See [`isolate_roots_with_budget`].
pub fn isolate_roots(p: &QPoly) -> (r: Result<Vec<RealRoot>, RootError>)
    ensures
        p@.len() == 0 ==> (r matches Err(e) && e == RootError::ZeroPolynomial),
        p@.len() == 1 ==> (r matches Ok(v) && v@.len() == 0),
        p@.len() >= 2 ==> (r is Ok || (r matches Err(e) && e == (RootError::BudgetExceeded {
            limit: AlgebraBudget::default_spec().max_root_bisections,
        }))),
        r matches Ok(v) ==> ascending(v@),
{
    isolate_roots_with_budget(p, AlgebraBudget::default())
}

/// Isolate all real roots of `p` under an explicit bisection budget: the
/// zero polynomial is an error, a nonzero constant has no roots, and
/// otherwise the square-free part is isolated by bisection (or the budget
/// runs out). The roots come back in ascending order, each bracket ending
/// where the next begins or before; rational roots are collapsed to exact
/// points where found, and each root takes its multiplicity from the first
/// square-free factor of `p` it is a root of.
#[verifier::spinoff_prover]
pub fn isolate_roots_with_budget(p: &QPoly, budget: AlgebraBudget) -> (r: Result<Vec<RealRoot>, RootError>)
    ensures
        p@.len() == 0 ==> (r matches Err(e) && e == RootError::ZeroPolynomial),
        p@.len() == 1 ==> (r matches Ok(v) && v@.len() == 0),
        p@.len() >= 2 ==> (r is Ok || (r matches Err(e) && e == (RootError::BudgetExceeded {
            limit: budget.max_root_bisections,
        }))),
        r matches Ok(v) ==> ascending(v@),
{
    if p.is_zero() {
        return Err(RootError::ZeroPolynomial);
    }
    if p.coeffs.len() == 1 {
        return Ok(Vec::new());
    }
    let decomp = p.square_free_decomposition();
    let sf = p.square_free_part();
    let raw = match isolate_square_free(&sf, budget.max_root_bisections) {
        Ok(v) => v,
        Err(e) => {
            return Err(e);
        },
    };
    // Ascending bracket order (stable insertion).
    let sorted = sort_by_bracket(&raw);
    // Collapse rational roots and read multiplicities off the factors.
    let mut result: Vec<RealRoot> = Vec::new();
    let mut k: usize = 0;
    while k < sorted.len()
        invariant
            k <= sorted@.len(),
            result@.len() == k,
            ascending(sorted@),
            ascending(result@),
            forall|t: int| 0 <= t < sorted@.len() ==> canonical(#[trigger] sorted@[t].lower()) && canonical(sorted@[t].upper())
                && qle(sorted@[t].lower(), sorted@[t].upper()),
            forall|t: int| 0 <= t < k ==> canonical(#[trigger] result@[t].lower()) && canonical(result@[t].upper())
                && qle(sorted@[t].lower(), result@[t].lower()) && qle(result@[t].upper(), sorted@[t].upper()),
            forall|t: int| 0 <= t < decomp@.len() ==> (#[trigger] decomp@[t]).0 >= 1,
        decreases sorted@.len() - k,
    {
        let r = finish_root(&sorted[k], &decomp);
        proof {
            assert(canonical(r.lower()) && canonical(r.upper()));
            assert(qle(sorted@[k as int].lower(), r.lower()));
            assert(qle(r.upper(), sorted@[k as int].upper()));
            if k > 0 {
                let prev = result@[k - 1];
                assert(canonical(result@[k - 1].lower()));
                assert(canonical(sorted@[k - 1].lower()));
                assert(canonical(sorted@[k as int].lower()));
                crate::rational::lemma_qle_trans(prev.upper(), sorted@[k - 1].upper(), sorted@[k as int].lower());
                crate::rational::lemma_qle_trans(prev.upper(), sorted@[k as int].lower(), r.lower());
            }
        }
        let ghost old_result = result@;
        result.push(r);
        proof {
            assert forall|u: int| 0 <= u < result@.len() - 1 implies qle(#[trigger] result@[u].upper(), result@[u + 1].lower()) by {
                if u + 1 < k {
                    assert(result@[u] == old_result[u] && result@[u + 1] == old_result[u + 1]);
                } else {
                    assert(result@[u] == old_result[u]);
                }
            }
            assert(result@[k as int] == r);
            assert forall|u: int| 0 <= u < k + 1 implies canonical(#[trigger] result@[u].lower()) && canonical(result@[u].upper())
                && qle(sorted@[u].lower(), result@[u].lower()) && qle(result@[u].upper(), sorted@[u].upper()) by {
                if u < k {
                    assert(result@[u] == old_result[u]);
                }
            }
        }
        k = k + 1;
    }
    Ok(result)
}


/// The refinement steps a comparison or sign query spends before it gives
/// up undecided.
const MAX_REFINEMENTS: u32 = 100_000;

/// The root bracketed by `b` is certainly below `r`.
pub open spec fn below(b: (Q, Q), r: Q) -> bool {
    if b.0 == b.1 {
        qlt(b.0, r)
    } else {
        qle(b.1, r)
    }
}

/// The root bracketed by `b` is certainly above `r`.
pub open spec fn above(b: (Q, Q), r: Q) -> bool {
    if b.0 == b.1 {
        qlt(r, b.0)
    } else {
        qle(r, b.0)
    }
}

/// The root of `p` bracketed by `b` is certainly `r`: the point itself, or
/// a root of `p` strictly inside the bracket.
pub open spec fn certified_at(p: Seq<Q>, b: (Q, Q), r: Q) -> bool {
    if b.0 == b.1 {
        b.0 == r
    } else {
        qlt(b.0, r) && qlt(r, b.1) && horner(p, r).0 == 0
    }
}

/// `b2` lies inside `b1`.
pub open spec fn within(b2: (Q, Q), b1: (Q, Q)) -> bool {
    qle(b1.0, b2.0) && qle(b2.1, b1.1)
}

/// The order of two rationals.
fn order_of(a: &Rational, b: &Rational) -> (o: Ordering)
    ensures
        (o == Ordering::Less) == qlt(a@, b@),
        (o == Ordering::Equal) == (a@ == b@),
        (o == Ordering::Greater) == qlt(b@, a@),
{
    a.lowest_terms();
    b.lowest_terms();
    if a.lt(b) {
        Ordering::Less
    } else if a == b {
        Ordering::Equal
    } else {
        proof {
            crate::rational::lemma_qle_ne(b@, a@);
        }
        Ordering::Greater
    }
}

/// `Less` and `Greater` swapped.
fn flipped(o: Option<Ordering>) -> (r: Option<Ordering>)
    ensures
        (r == Some(Ordering::Less)) == (o == Some(Ordering::Greater)),
        (r == Some(Ordering::Greater)) == (o == Some(Ordering::Less)),
        (r == Some(Ordering::Equal)) == (o == Some(Ordering::Equal)),
        r is None == o is None,
{
    match o {
        Some(Ordering::Less) => Some(Ordering::Greater),
        Some(Ordering::Greater) => Some(Ordering::Less),
        other => other,
    }
}

impl RealRoot {
    /// Compare with an exact rational by exact bisection: a point bracket
    /// compares its value; a bracket with `r` at or beyond an end is decided;
    /// `r` strictly inside is equal iff it is a root of the defining
    /// polynomial; otherwise the bracket is refined. `None` only after
    /// `MAX_REFINEMENTS` refinements leave it undecided.
    pub fn cmp_rational(&mut self, r: &Rational) -> (o: Option<Ordering>)
        ensures
            final(self).defining() == old(self).defining(),
            final(self).mult() == old(self).mult(),
            within(bracket(*final(self)), bracket(*old(self))),
            old(self).lower() == old(self).upper() ==> bracket(*final(self)) == bracket(*old(self)) && o is Some,
            o == Some(Ordering::Less) ==> below(bracket(*final(self)), r@),
            o == Some(Ordering::Greater) ==> above(bracket(*final(self)), r@),
            o == Some(Ordering::Equal) ==> certified_at(final(self).defining(), bracket(*final(self)), r@),
            old(self).lower() != old(self).upper() && qle(r@, old(self).lower()) ==> o == Some(Ordering::Greater),
            old(self).lower() != old(self).upper() && !qle(r@, old(self).lower()) && qle(old(self).upper(), r@) ==> o
                == Some(Ordering::Less),
            old(self).lower() != old(self).upper() && !qle(r@, old(self).lower()) && !qle(old(self).upper(), r@)
                && horner(old(self).defining(), r@).0 == 0 ==> o == Some(Ordering::Equal),
    {
        proof {
            use_type_invariant(&*self);
        }
        self.lo.lowest_terms();
        self.hi.lowest_terms();
        r.lowest_terms();
        let mut steps: u32 = 0;
        while steps < MAX_REFINEMENTS
            invariant
                self.defining() == old(self).defining(),
                self.mult() == old(self).mult(),
                canonical(old(self).lower()),
                canonical(old(self).upper()),
                canonical(r@),
                within(bracket(*self), bracket(*old(self))),
                steps > 0 ==> self.lower() != self.upper(),
                old(self).lower() == old(self).upper() ==> bracket(*self) == bracket(*old(self)),
                steps == 0 ==> bracket(*self) == bracket(*old(self)),
                steps > 0 ==> old(self).lower() != old(self).upper() && !qle(r@, old(self).lower()) && !qle(
                    old(self).upper(),
                    r@,
                ) && horner(old(self).defining(), r@).0 != 0,
            decreases MAX_REFINEMENTS - steps,
        {
            proof {
                use_type_invariant(&*self);
            }
            self.lo.lowest_terms();
            self.hi.lowest_terms();
            if self.is_exact() {
                return Some(order_of(&self.lo, r));
            }
            if r.le(&self.lo) {
                return Some(Ordering::Greater);
            }
            if self.hi.le(r) {
                return Some(Ordering::Less);
            }
            if self.poly.sign_at(r) == Sign::Zero {
                proof {
                    crate::rational::lemma_qle_ne(self.lower(), r@);
                    crate::rational::lemma_qle_ne(r@, self.upper());
                }
                return Some(Ordering::Equal);
            }
            let ghost before = bracket(*self);
            proof {
                lemma_bisect_within(self.defining(), self.lower(), self.upper());
            }
            self.refine();
            self.lo.lowest_terms();
            self.hi.lowest_terms();
            proof {
                crate::rational::lemma_qle_trans(old(self).lower(), before.0, self.lower());
                crate::rational::lemma_qle_trans(self.upper(), before.1, old(self).upper());
            }
            if self.is_exact() {
                return Some(order_of(&self.lo, r));
            }
            steps = steps + 1;
        }
        None
    }

    /// Exact sign of `h` at this root: `Zero` for the zero polynomial; the
    /// sign at the value of a point bracket; `Zero` when the gcd test of
    /// [`RealRoot::is_root_of`] certifies a common root; otherwise the
    /// bracket is refined until `h` has Descartes count zero on it and is
    /// nonzero at its midpoint, whose sign is then the answer. `None` only
    /// after `MAX_REFINEMENTS` refinements leave it undecided.
    pub fn sign_of(&mut self, h: &QPoly) -> (s: Option<Sign>)
        ensures
            final(self).defining() == old(self).defining(),
            final(self).mult() == old(self).mult(),
            within(bracket(*final(self)), bracket(*old(self))),
            h@.len() == 0 ==> s == Some(Sign::Zero),
            h@.len() > 0 && old(self).lower() == old(self).upper() ==> s == Some(sign_at_spec(h@, old(self).lower())),
            old(self).lower() == old(self).upper() ==> s is Some && bracket(*final(self)) == bracket(*old(self)),
            h@.len() > 0 && final(self).lower() == final(self).upper() && s is Some ==> s == Some(
                sign_at_spec(h@, final(self).lower()),
            ),
            s matches Some(x) ==> (x != Sign::Zero && final(self).lower() != final(self).upper() ==> descartes_spec(
                h@,
                final(self).lower(),
                final(self).upper(),
            ) == 0 && x == sign_at_spec(h@, midpoint(final(self).lower(), final(self).upper()))),
    {
        proof {
            use_type_invariant(&*self);
        }
        self.lo.lowest_terms();
        self.hi.lowest_terms();
        if h.is_zero() {
            return Some(Sign::Zero);
        }
        match self.value() {
            Some(v) => {
                return Some(h.sign_at(v));
            },
            None => {},
        }
        if self.is_root_of(h) {
            return Some(Sign::Zero);
        }
        let half = half();
        let mut steps: u32 = 0;
        while steps < MAX_REFINEMENTS
            invariant
                self.defining() == old(self).defining(),
                self.mult() == old(self).mult(),
                canonical(old(self).lower()),
                canonical(old(self).upper()),
                within(bracket(*self), bracket(*old(self))),
                self.lower() != self.upper(),
                old(self).lower() != old(self).upper(),
                h@.len() > 0,
                half@ == (1int, 2int),
            decreases MAX_REFINEMENTS - steps,
        {
            proof {
                use_type_invariant(&*self);
            }
            self.lo.lowest_terms();
            self.hi.lowest_terms();
            if h.descartes_in(&self.lo, &self.hi) == 0 {
                let mid = self.lo.add(&self.hi).mul(&half);
                let sg = h.sign_at(&mid);
                if sg != Sign::Zero {
                    return Some(sg);
                }
            }
            let ghost before = bracket(*self);
            proof {
                lemma_bisect_within(self.defining(), self.lower(), self.upper());
            }
            self.refine();
            self.lo.lowest_terms();
            self.hi.lowest_terms();
            proof {
                crate::rational::lemma_qle_trans(old(self).lower(), before.0, self.lower());
                crate::rational::lemma_qle_trans(self.upper(), before.1, old(self).upper());
            }
            match self.value() {
                Some(v) => {
                    return Some(h.sign_at(v));
                },
                None => {},
            }
            steps = steps + 1;
        }
        None
    }

    /// Compare two roots (possibly of different polynomials). A point
    /// bracket on either side reduces to [`RealRoot::cmp_rational`];
    /// otherwise brackets that end before the other begins decide the
    /// order, a sign change of the gcd of the two defining polynomials
    /// across the overlap certifies equality, and both brackets are refined
    /// in turn. `None` only after `MAX_REFINEMENTS` rounds leave it
    /// undecided.
    pub fn cmp_root(&mut self, other: &mut RealRoot) -> (o: Option<Ordering>)
        ensures
            final(self).defining() == old(self).defining(),
            final(self).mult() == old(self).mult(),
            final(other).defining() == old(other).defining(),
            final(other).mult() == old(other).mult(),
            within(bracket(*final(self)), bracket(*old(self))),
            within(bracket(*final(other)), bracket(*old(other))),
            o == Some(Ordering::Less) ==> qle(final(self).upper(), final(other).lower()) && !(final(self).lower()
                == final(self).upper() && final(other).lower() == final(other).upper() && final(self).lower()
                == final(other).lower()),
            o == Some(Ordering::Greater) ==> qle(final(other).upper(), final(self).lower()) && !(final(self).lower()
                == final(self).upper() && final(other).lower() == final(other).upper() && final(self).lower()
                == final(other).lower()),
            o == Some(Ordering::Equal) ==> qle(final(self).lower(), final(other).upper()) && qle(
                final(other).lower(),
                final(self).upper(),
            ),
            old(self).lower() == old(self).upper() && old(other).lower() == old(other).upper() ==> o is Some,
            old(self).lower() != old(self).upper() && old(other).lower() != old(other).upper() && qle(
                old(self).upper(),
                old(other).lower(),
            ) ==> o == Some(Ordering::Less),
            old(self).lower() != old(self).upper() && old(other).lower() != old(other).upper() && qle(
                old(other).upper(),
                old(self).lower(),
            ) && !qle(old(self).upper(), old(other).lower()) ==> o == Some(Ordering::Greater),
    {
        proof {
            use_type_invariant(&*self);
            use_type_invariant(&*other);
        }
        self.lo.lowest_terms();
        self.hi.lowest_terms();
        other.lo.lowest_terms();
        other.hi.lowest_terms();
        if other.is_exact() {
            let v = other.lo.clone();
            let o = self.cmp_rational(&v);
            self.well_formed();
            self.lo.lowest_terms();
            self.hi.lowest_terms();
            v.lowest_terms();
            proof {
                self.lemma_rational_certificates(o, v@);
            }
            return o;
        }
        if self.is_exact() {
            let v = self.lo.clone();
            let o = other.cmp_rational(&v);
            other.well_formed();
            other.lo.lowest_terms();
            other.hi.lowest_terms();
            v.lowest_terms();
            proof {
                other.lemma_rational_certificates(o, v@);
            }
            return flipped(o);
        }
        let g = self.poly.gcd(&other.poly);
        let mut steps: u32 = 0;
        while steps < MAX_REFINEMENTS
            invariant
                self.defining() == old(self).defining(),
                self.mult() == old(self).mult(),
                other.defining() == old(other).defining(),
                other.mult() == old(other).mult(),
                canonical(old(self).lower()),
                canonical(old(self).upper()),
                canonical(old(other).lower()),
                canonical(old(other).upper()),
                within(bracket(*self), bracket(*old(self))),
                within(bracket(*other), bracket(*old(other))),
                self.lower() != self.upper(),
                other.lower() != other.upper(),
                steps == 0 ==> bracket(*self) == bracket(*old(self)) && bracket(*other) == bracket(*old(other)),
                old(self).lower() != old(self).upper(),
                old(other).lower() != old(other).upper(),
                steps > 0 ==> !qle(old(self).upper(), old(other).lower()) && !qle(old(other).upper(), old(self).lower()),
            decreases MAX_REFINEMENTS - steps,
        {
            proof {
                use_type_invariant(&*self);
                use_type_invariant(&*other);
            }
            self.lo.lowest_terms();
            self.hi.lowest_terms();
            other.lo.lowest_terms();
            other.hi.lowest_terms();
            if self.hi.le(&other.lo) {
                return Some(Ordering::Less);
            }
            if other.hi.le(&self.lo) {
                return Some(Ordering::Greater);
            }
            let olo = if other.lo.lt(&self.lo) {
                self.lo.clone()
            } else {
                other.lo.clone()
            };
            let ohi = if self.hi.lt(&other.hi) {
                self.hi.clone()
            } else {
                other.hi.clone()
            };
            if g.coeffs.len() > 1 {
                let slo = g.sign_at(&olo);
                let shi = g.sign_at(&ohi);
                if slo != Sign::Zero && shi != Sign::Zero && slo != shi {
                    proof {
                        assert(qle(self.lower(), other.upper()) && qle(other.lower(), self.upper())) by (nonlinear_arith)
                            requires
                                !(other.upper().0 * self.lower().1 <= self.lower().0 * other.upper().1),
                                !(self.upper().0 * other.lower().1 <= other.lower().0 * self.upper().1),
                        ;
                    }
                    return Some(Ordering::Equal);
                }
            }
            let ghost sb = bracket(*self);
            let ghost ob = bracket(*other);
            proof {
                lemma_bisect_within(self.defining(), self.lower(), self.upper());
                lemma_bisect_within(other.defining(), other.lower(), other.upper());
            }
            self.refine();
            other.refine();
            self.lo.lowest_terms();
            self.hi.lowest_terms();
            other.lo.lowest_terms();
            other.hi.lowest_terms();
            proof {
                crate::rational::lemma_qle_trans(old(self).lower(), sb.0, self.lower());
                crate::rational::lemma_qle_trans(self.upper(), sb.1, old(self).upper());
                crate::rational::lemma_qle_trans(old(other).lower(), ob.0, other.lower());
                crate::rational::lemma_qle_trans(other.upper(), ob.1, old(other).upper());
            }
            if other.is_exact() {
                let v = other.lo.clone();
                let ghost sb2 = bracket(*self);
                let o = self.cmp_rational(&v);
                self.well_formed();
                self.lo.lowest_terms();
                self.hi.lowest_terms();
                v.lowest_terms();
                proof {
                    self.lemma_rational_certificates(o, v@);
                    crate::rational::lemma_qle_trans(old(self).lower(), sb2.0, self.lower());
                    crate::rational::lemma_qle_trans(self.upper(), sb2.1, old(self).upper());
                }
                return o;
            }
            if self.is_exact() {
                let v = self.lo.clone();
                let ghost ob2 = bracket(*other);
                let o = other.cmp_rational(&v);
                other.well_formed();
                other.lo.lowest_terms();
                other.hi.lowest_terms();
                v.lowest_terms();
                proof {
                    other.lemma_rational_certificates(o, v@);
                    crate::rational::lemma_qle_trans(old(other).lower(), ob2.0, other.lower());
                    crate::rational::lemma_qle_trans(other.upper(), ob2.1, old(other).upper());
                }
                return flipped(o);
            }
            steps = steps + 1;
        }
        None
    }

    /// What a comparison with the value `v` of an exact root certifies
    /// about the two brackets.
    proof fn lemma_rational_certificates(&self, o: Option<Ordering>, v: Q)
        requires
            root_wf(*self),
            canonical(self.lower()),
            canonical(self.upper()),
            canonical(v),
            o == Some(Ordering::Less) ==> below(bracket(*self), v),
            o == Some(Ordering::Greater) ==> above(bracket(*self), v),
            o == Some(Ordering::Equal) ==> certified_at(self.defining(), bracket(*self), v),
        ensures
            o == Some(Ordering::Less) ==> qle(self.upper(), v) && self.lower() != v,
            o == Some(Ordering::Greater) ==> qle(v, self.lower()) && self.upper() != v,
            o == Some(Ordering::Equal) ==> qle(self.lower(), v) && qle(v, self.upper()),
    {
        if o == Some(Ordering::Less) && self.lower() == self.upper() {
            assert(self.lower() != v) by (nonlinear_arith)
                requires
                    self.lower().0 * v.1 < v.0 * self.lower().1,
            ;
        }
        if o == Some(Ordering::Less) && self.lower() != self.upper() {
            crate::rational::lemma_qle_ne(self.lower(), self.upper());
            if self.lower() == v {
                assert(false) by (nonlinear_arith)
                    requires
                        self.lower().0 * self.upper().1 < self.upper().0 * self.lower().1,
                        self.upper().0 * v.1 <= v.0 * self.upper().1,
                        self.lower() == v,
                ;
            }
        }
        if o == Some(Ordering::Greater) && self.lower() == self.upper() {
            assert(self.upper() != v) by (nonlinear_arith)
                requires
                    v.0 * self.lower().1 < self.lower().0 * v.1,
                    self.lower() == self.upper(),
            ;
        }
        if o == Some(Ordering::Greater) && self.lower() != self.upper() {
            crate::rational::lemma_qle_ne(self.lower(), self.upper());
            if self.upper() == v {
                assert(false) by (nonlinear_arith)
                    requires
                        self.lower().0 * self.upper().1 < self.upper().0 * self.lower().1,
                        v.0 * self.lower().1 <= self.lower().0 * v.1,
                        self.upper() == v,
                ;
            }
        }
    }
}


/// A bisection step keeps the root bracketed: the new bracket lies inside
/// the old one, and when `p` changes sign across the old bracket (nonzero
/// at both ends), the new bracket is either an exact root of `p` or again a
/// bracket across which `p` changes sign, nonzero at both ends.
pub proof fn lemma_bisect_keeps_sign_change(p: Seq<Q>, lo: Q, hi: Q)
    requires
        canonical(lo),
        canonical(hi),
        qlt(lo, hi),
        horner(p, lo).0 != 0,
        horner(p, hi).0 != 0,
        sign_at_spec(p, lo) != sign_at_spec(p, hi),
    ensures
        within(bisect(p, lo, hi), (lo, hi)),
        ({
            let b = bisect(p, lo, hi);
            ||| b.0 == b.1 && horner(p, b.0).0 == 0
            ||| qlt(b.0, b.1) && horner(p, b.0).0 != 0 && horner(p, b.1).0 != 0 && sign_at_spec(p, b.0)
                != sign_at_spec(p, b.1)
        }),
{
    assert(lo != hi) by (nonlinear_arith)
        requires
            lo.0 * hi.1 < hi.0 * lo.1,
    ;
    crate::rational::lemma_midpoint(lo, hi);
    lemma_bisect_within(p, lo, hi);
}

impl RealRoot {
    /// The multiplicity of this root in `h`: the least `m` with
    /// `h^(m)` nonzero here, found by exact signs of successive
    /// derivatives; `u32::MAX` for the zero polynomial (every order
    /// vanishes). `None` only when a sign query is left undecided.
    pub fn multiplicity_of(&mut self, h: &QPoly) -> (m: Option<u32>)
        requires
            h@.len() < u32::MAX,
        ensures
            final(self).defining() == old(self).defining(),
            final(self).mult() == old(self).mult(),
            within(bracket(*final(self)), bracket(*old(self))),
            h@.len() == 0 ==> m == Some(u32::MAX),
            m matches Some(k) ==> k == u32::MAX || k < h@.len(),
            old(self).lower() == old(self).upper() && h@.len() > 0 ==> (m == Some(0u32) <==> horner(h@, old(self).lower()).0 != 0),
    {
        proof {
            use_type_invariant(&*self);
        }
        self.lo.lowest_terms();
        self.hi.lowest_terms();
        if h.is_zero() {
            return Some(u32::MAX);
        }
        let mut q = h.clone();
        let mut k: u32 = 0;
        while k < u32::MAX
            invariant
                self.defining() == old(self).defining(),
                self.mult() == old(self).mult(),
                canonical(old(self).lower()),
                canonical(old(self).upper()),
                within(bracket(*self), bracket(*old(self))),
                q@.len() + k <= h@.len(),
                h@.len() < u32::MAX,
                k == 0 ==> q@ == h@,
                old(self).lower() == old(self).upper() ==> bracket(*self) == bracket(*old(self)),
                old(self).lower() == old(self).upper() && k > 0 ==> horner(h@, old(self).lower()).0 == 0,
            decreases u32::MAX - k,
        {
            self.lo.lowest_terms();
            self.hi.lowest_terms();
            let ghost b = bracket(*self);
            match self.sign_of(&q) {
                None => {
                    self.lo.lowest_terms();
                    self.hi.lowest_terms();
                    proof {
                        crate::rational::lemma_qle_trans(old(self).lower(), b.0, self.lower());
                        crate::rational::lemma_qle_trans(self.upper(), b.1, old(self).upper());
                    }
                    return None;
                },
                Some(sg) => {
                    self.lo.lowest_terms();
                    self.hi.lowest_terms();
                    proof {
                        crate::rational::lemma_qle_trans(old(self).lower(), b.0, self.lower());
                        crate::rational::lemma_qle_trans(self.upper(), b.1, old(self).upper());
                    }
                    if sg != Sign::Zero {
                        return Some(k);
                    }
                },
            }
            if q.is_zero() {
                return Some(u32::MAX);
            }
            let ghost qo = q@;
            q = q.derivative();
            proof {
                if qo.len() > 1 {
                    lemma_trim(Seq::new((qo.len() - 1) as nat, |i: int| qmul(qo[i + 1], qint(i + 1))));
                }
            }
            k = k + 1;
        }
        Some(u32::MAX)
    }
}


/// The sign of `a + b·√h` (with `h >= 0`) from the signs of `a`, `b`, `h`
/// and of `a² - b²·h`: when `b` or `h` vanishes it is the sign of `a`; when
/// `a` vanishes it is the sign of `b`; when `a` and `b` agree it is theirs;
/// otherwise the larger of `|a|` and `|b|·√h` decides, which is what the
/// sign of `a² - b²·h` tells.
pub open spec fn radical1_sign(sa: Sign, sb: Sign, sh: Sign, sd: Sign) -> Sign {
    if sh == Sign::Zero || sb == Sign::Zero {
        sa
    } else if sa == Sign::Zero {
        sb
    } else if sa == sb {
        sa
    } else {
        match sd {
            Sign::Zero => Sign::Zero,
            Sign::Positive => sa,
            Sign::Negative => sb,
        }
    }
}

/// [`radical1_sign`] of `a(x) + b(x)·√h(x)` at a rational point `x`.
pub open spec fn radical1_at(x: Q, a: Seq<Q>, b: Seq<Q>, h: Seq<Q>) -> Sign {
    radical1_sign(
        sign_at_spec(a, x),
        sign_at_spec(b, x),
        sign_at_spec(h, x),
        sign_at_spec(poly_sub(poly_mul(a, a), poly_mul(poly_mul(b, b), h)), x),
    )
}

/// The sign of `a + b·√h1 + c·√h2` at a rational point `x` (with
/// `h1, h2 >= 0`): a vanishing radical term reduces to one radical;
/// otherwise the sign of `a + b·√h1` and of `c` decide when they agree or
/// one vanishes, and when they disagree one squaring reduces the comparison
/// to the one-radical expression `(a² + b²h1 - c²h2) + 2ab·√h1`.
pub open spec fn radical2_at(x: Q, a: Seq<Q>, b: Seq<Q>, h1: Seq<Q>, c: Seq<Q>, h2: Seq<Q>) -> Sign {
    if sign_at_spec(c, x) == Sign::Zero || sign_at_spec(h2, x) == Sign::Zero {
        radical1_at(x, a, b, h1)
    } else if sign_at_spec(b, x) == Sign::Zero || sign_at_spec(h1, x) == Sign::Zero {
        radical1_at(x, a, c, h2)
    } else {
        let left = radical1_at(x, a, b, h1);
        let sc = sign_at_spec(c, x);
        if left == Sign::Zero {
            sc
        } else if left == sc {
            left
        } else {
            let alpha = poly_sub(poly_add(poly_mul(a, a), poly_mul(poly_mul(b, b), h1)), poly_mul(poly_mul(c, c), h2));
            let beta = poly_scale(poly_mul(a, b), qint(2));
            match radical1_at(x, alpha, beta, h1) {
                Sign::Zero => Sign::Zero,
                Sign::Positive => left,
                Sign::Negative => sc,
            }
        }
    }
}

/// Exact sign of `a(ξ) + b(ξ)·√h(ξ)` at the root `ξ`, for a radicand with
/// `h(ξ) >= 0`, by the ladder of [`radical1_sign`] over exact signs at `ξ`
/// ([`RealRoot::sign_of`]). On a point bracket it is [`radical1_at`] of the
/// value. `None` only when a sign query is left undecided.
pub fn sign_radical1(xi: &mut RealRoot, a: &QPoly, b: &QPoly, h: &QPoly) -> (s: Option<Sign>)
    requires
        a@.len() <= usize::MAX / 8,
        b@.len() <= usize::MAX / 8,
        h@.len() <= usize::MAX / 8,
    ensures
        final(xi).defining() == old(xi).defining(),
        final(xi).mult() == old(xi).mult(),
        within(bracket(*final(xi)), bracket(*old(xi))),
        old(xi).lower() == old(xi).upper() ==> s == Some(radical1_at(old(xi).lower(), a@, b@, h@))
            && bracket(*final(xi)) == bracket(*old(xi)),
{
    let ghost x0 = *xi;
    xi.well_formed();
    proof {
        crate::rational::lemma_qle_trans(x0.lower(), x0.lower(), x0.lower());
    }
    let sh = match xi.sign_of(h) {
        Some(v) => v,
        None => {
            return None;
        },
    };
    let ghost x1 = *xi;
    xi.well_formed();
    let sb = match xi.sign_of(b) {
        Some(v) => v,
        None => {
            xi.well_formed();
            proof {
                lemma_within_trans(bracket(x0), bracket(x1), bracket(*xi));
            }
            return None;
        },
    };
    let ghost x2 = *xi;
    xi.well_formed();
    proof {
        lemma_within_trans(bracket(x0), bracket(x1), bracket(x2));
    }
    xi.well_formed();
    if sh == Sign::Zero || sb == Sign::Zero {
        let r = xi.sign_of(a);
        xi.well_formed();
        proof {
            lemma_within_trans(bracket(x0), bracket(x2), bracket(*xi));
        }
        return r;
    }
    let sa = match xi.sign_of(a) {
        Some(v) => v,
        None => {
            xi.well_formed();
            proof {
                lemma_within_trans(bracket(x0), bracket(x2), bracket(*xi));
            }
            return None;
        },
    };
    let ghost x3 = *xi;
    xi.well_formed();
    proof {
        lemma_within_trans(bracket(x0), bracket(x2), bracket(x3));
    }
    if sa == Sign::Zero {
        return Some(sb);
    }
    if sa == sb {
        return Some(sa);
    }
    proof {
        crate::polymat::lemma_mul_len(a@, a@);
        crate::polymat::lemma_mul_len(b@, b@);
        crate::polymat::lemma_mul_len(poly_mul(b@, b@), h@);
    }
    let a2 = a.mul_poly(a);
    let bb = b.mul_poly(b);
    let b2h = bb.mul_poly(h);
    let diff = a2.sub_poly(&b2h);
    xi.well_formed();
    let sd = xi.sign_of(&diff);
    xi.well_formed();
    proof {
        lemma_within_trans(bracket(x0), bracket(x3), bracket(*xi));
    }
    match sd {
        Some(Sign::Zero) => Some(Sign::Zero),
        Some(Sign::Positive) => Some(sa),
        Some(Sign::Negative) => Some(sb),
        None => None,
    }
}

/// Exact sign of `a(ξ) + b(ξ)·√h1(ξ) + c(ξ)·√h2(ξ)` at the root `ξ`, for
/// radicands nonnegative at `ξ`; one squaring reduces it to
/// [`sign_radical1`]. On a point bracket it is [`radical2_at`] of the
/// value. `None` only when a sign query is left undecided.
#[verifier::spinoff_prover]
pub fn sign_radical2(xi: &mut RealRoot, a: &QPoly, b: &QPoly, h1: &QPoly, c: &QPoly, h2: &QPoly) -> (s: Option<Sign>)
    requires
        a@.len() <= usize::MAX / 64,
        b@.len() <= usize::MAX / 64,
        h1@.len() <= usize::MAX / 64,
        c@.len() <= usize::MAX / 64,
        h2@.len() <= usize::MAX / 64,
    ensures
        final(xi).defining() == old(xi).defining(),
        final(xi).mult() == old(xi).mult(),
        within(bracket(*final(xi)), bracket(*old(xi))),
        old(xi).lower() == old(xi).upper() ==> s == Some(radical2_at(old(xi).lower(), a@, b@, h1@, c@, h2@))
            && bracket(*final(xi)) == bracket(*old(xi)),
{
    let ghost x0 = *xi;
    xi.well_formed();
    proof {
        crate::rational::lemma_qle_trans(x0.lower(), x0.lower(), x0.lower());
    }
    let sc0 = match xi.sign_of(c) {
        Some(v) => v,
        None => {
            return None;
        },
    };
    let ghost x1 = *xi;
    xi.well_formed();
    let sh2 = match xi.sign_of(h2) {
        Some(v) => v,
        None => {
            xi.well_formed();
            proof {
                lemma_within_trans(bracket(x0), bracket(x1), bracket(*xi));
            }
            return None;
        },
    };
    let ghost x2 = *xi;
    xi.well_formed();
    proof {
        lemma_within_trans(bracket(x0), bracket(x1), bracket(x2));
    }
    xi.well_formed();
    if sc0 == Sign::Zero || sh2 == Sign::Zero {
        let r = sign_radical1(xi, a, b, h1);
        xi.well_formed();
        proof {
            lemma_within_trans(bracket(x0), bracket(x2), bracket(*xi));
        }
        return r;
    }
    let sb = match xi.sign_of(b) {
        Some(v) => v,
        None => {
            xi.well_formed();
            proof {
                lemma_within_trans(bracket(x0), bracket(x2), bracket(*xi));
            }
            return None;
        },
    };
    let ghost x3 = *xi;
    xi.well_formed();
    proof {
        lemma_within_trans(bracket(x0), bracket(x2), bracket(x3));
    }
    xi.well_formed();
    let sh1 = match xi.sign_of(h1) {
        Some(v) => v,
        None => {
            xi.well_formed();
            proof {
                lemma_within_trans(bracket(x0), bracket(x3), bracket(*xi));
            }
            return None;
        },
    };
    let ghost x4 = *xi;
    xi.well_formed();
    proof {
        lemma_within_trans(bracket(x0), bracket(x3), bracket(x4));
    }
    xi.well_formed();
    if sb == Sign::Zero || sh1 == Sign::Zero {
        let r = sign_radical1(xi, a, c, h2);
        xi.well_formed();
        proof {
            lemma_within_trans(bracket(x0), bracket(x4), bracket(*xi));
        }
        return r;
    }
    let left = match sign_radical1(xi, a, b, h1) {
        Some(v) => v,
        None => {
            xi.well_formed();
            proof {
                lemma_within_trans(bracket(x0), bracket(x4), bracket(*xi));
            }
            return None;
        },
    };
    let ghost x5 = *xi;
    xi.well_formed();
    proof {
        lemma_within_trans(bracket(x0), bracket(x4), bracket(x5));
    }
    xi.well_formed();
    let sc = match xi.sign_of(c) {
        Some(v) => v,
        None => {
            xi.well_formed();
            proof {
                lemma_within_trans(bracket(x0), bracket(x5), bracket(*xi));
            }
            return None;
        },
    };
    let ghost x6 = *xi;
    xi.well_formed();
    proof {
        lemma_within_trans(bracket(x0), bracket(x5), bracket(x6));
    }
    if left == Sign::Zero {
        return Some(sc);
    }
    if sc == Sign::Zero || left == sc {
        return Some(left);
    }
    proof {
        crate::polymat::lemma_mul_len(a@, a@);
        crate::polymat::lemma_mul_len(b@, b@);
        crate::polymat::lemma_mul_len(poly_mul(b@, b@), h1@);
        crate::polymat::lemma_mul_len(c@, c@);
        crate::polymat::lemma_mul_len(poly_mul(c@, c@), h2@);
        crate::polymat::lemma_mul_len(a@, b@);
        crate::polymat::lemma_add_sub_len(poly_mul(a@, a@), poly_mul(poly_mul(b@, b@), h1@));
        crate::polymat::lemma_add_sub_len(
            poly_add(poly_mul(a@, a@), poly_mul(poly_mul(b@, b@), h1@)),
            poly_mul(poly_mul(c@, c@), h2@),
        );
    }
    let alpha = a.mul_poly(a).add_poly(&b.mul_poly(b).mul_poly(h1)).sub_poly(&c.mul_poly(c).mul_poly(h2));
    let beta = a.mul_poly(b).scale(&Rational::from_i64(2));
    xi.well_formed();
    let r = match sign_radical1(xi, &alpha, &beta, h1) {
        Some(Sign::Zero) => Some(Sign::Zero),
        Some(Sign::Positive) => Some(left),
        Some(Sign::Negative) => Some(sc),
        None => None,
    };
    xi.well_formed();
    proof {
        lemma_within_trans(bracket(x0), bracket(x6), bracket(*xi));
    }
    r
}

/// Inside a bracket inside another is inside the other.
proof fn lemma_within_trans(a: (Q, Q), b: (Q, Q), c: (Q, Q))
    requires
        a.0.1 > 0,
        a.1.1 > 0,
        b.0.1 > 0,
        b.1.1 > 0,
        c.0.1 > 0,
        c.1.1 > 0,
        within(b, a),
        within(c, b),
    ensures
        within(c, a),
{
    crate::rational::lemma_qle_trans(a.0, b.0, c.0);
    crate::rational::lemma_qle_trans(c.1, b.1, a.1);
}


/// `2^n`.
pub open spec fn pow2(n: nat) -> nat
    decreases n,
{
    if n == 0 {
        1
    } else {
        2 * pow2((n - 1) as nat)
    }
}

proof fn lemma_pow2_grows(n: nat)
    ensures
        pow2(n) > n,
        pow2(n + 1) == 2 * pow2(n),
    decreases n,
{
    if n > 0 {
        lemma_pow2_grows((n - 1) as nat);
    }
}

proof fn lemma_pow2_mono(n: nat, m: nat)
    requires
        n <= m,
    ensures
        pow2(n) <= pow2(m),
    decreases m,
{
    if n < m {
        lemma_pow2_mono(n, (m - 1) as nat);
    }
}

/// The width `hi - lo` of a bracket.
pub open spec fn width_of(b: (Q, Q)) -> Q {
    qsub(b.1, b.0)
}

/// Subtraction respects equality of values.
proof fn lemma_qsub_congr(x: Q, x2: Q, y: Q, y2: Q)
    requires
        x.1 > 0,
        x2.1 > 0,
        y.1 > 0,
        y2.1 > 0,
        crate::rational::qeq(x, x2),
        crate::rational::qeq(y, y2),
    ensures
        qsub(x, y).1 > 0,
        qsub(x2, y2).1 > 0,
        crate::rational::qeq(qsub(x, y), qsub(x2, y2)),
{
    assert(x.1 * y.1 > 0 && x2.1 * y2.1 > 0) by (nonlinear_arith)
        requires
            x.1 > 0,
            x2.1 > 0,
            y.1 > 0,
            y2.1 > 0,
    ;
    crate::rational::lemma_reduce_qeq(x.0 * y.1 - y.0 * x.1, x.1 * y.1);
    crate::rational::lemma_reduce_qeq(x2.0 * y2.1 - y2.0 * x2.1, x2.1 * y2.1);
    assert(x.0 * y.1 * (x2.1 * y2.1) == x2.0 * y2.1 * (x.1 * y.1)) by (nonlinear_arith)
        requires
            x.0 * x2.1 == x2.0 * x.1,
    ;
    assert(y.0 * x.1 * (x2.1 * y2.1) == y2.0 * x2.1 * (x.1 * y.1)) by (nonlinear_arith)
        requires
            y.0 * y2.1 == y2.0 * y.1,
    ;
    assert((x.0 * y.1 - y.0 * x.1) * (x2.1 * y2.1) == x.0 * y.1 * (x2.1 * y2.1) - y.0 * x.1 * (x2.1 * y2.1))
        by (nonlinear_arith);
    assert((x2.0 * y2.1 - y2.0 * x2.1) * (x.1 * y.1) == x2.0 * y2.1 * (x.1 * y.1) - y2.0 * x2.1 * (x.1 * y.1))
        by (nonlinear_arith);
    crate::rational::lemma_qeq_trans(
        qsub(x, y),
        (x.0 * y.1 - y.0 * x.1, x.1 * y.1),
        (x2.0 * y2.1 - y2.0 * x2.1, x2.1 * y2.1),
    );
    crate::rational::lemma_qeq_trans(
        qsub(x, y),
        (x2.0 * y2.1 - y2.0 * x2.1, x2.1 * y2.1),
        qsub(x2, y2),
    );
}

/// A bisection step that does not land on a root halves the width.
proof fn lemma_bisect_halves(p: Seq<Q>, lo: Q, hi: Q)
    requires
        lo.1 > 0,
        hi.1 > 0,
        qlt(lo, hi),
        bisect(p, lo, hi).0 != bisect(p, lo, hi).1,
    ensures
        width_of((lo, hi)).1 > 0,
        width_of(bisect(p, lo, hi)).1 > 0,
        crate::rational::qeq(width_of(bisect(p, lo, hi)), (width_of((lo, hi)).0, 2 * width_of((lo, hi)).1)),
{
    let (a, b) = lo;
    let (c, d) = hi;
    let m = midpoint(lo, hi);
    let s = qadd(lo, hi);
    let n0 = a * d + c * b;
    let d0 = b * d;
    assert(d0 > 0 && d * b > 0 && 2 * d0 > 0) by (nonlinear_arith)
        requires
            d0 == b * d,
            b > 0,
            d > 0,
    ;
    crate::rational::lemma_reduce_qeq(n0, d0);
    assert(s.1 * 2 > 0);
    crate::rational::lemma_reduce_qeq(s.0 * 1, s.1 * 2);
    assert(crate::rational::qeq(m, (n0, 2 * d0))) by (nonlinear_arith)
        requires
            m.0 * (s.1 * 2) == (s.0 * 1) * m.1,
            s.0 * d0 == n0 * s.1,
            s.1 > 0,
            m.1 > 0,
            d0 > 0,
    ;
    let w = width_of((lo, hi));
    let e = c * b - a * d;
    crate::rational::lemma_reduce_qeq(e, d * b);
    // (e, 2 d b) has the value w / 2
    assert(crate::rational::qeq((e, 2 * (d * b)), (w.0, 2 * w.1))) by (nonlinear_arith)
        requires
            w.0 * (d * b) == e * w.1,
    ;
    let big = (n0, 2 * d0);
    let bb = bisect(p, lo, hi);
    if bb.0 == m {
        lemma_qsub_congr(hi, hi, m, big);
        assert(d * (2 * d0) > 0) by (nonlinear_arith)
            requires
                d > 0,
                d0 > 0,
        ;
        crate::rational::lemma_reduce_qeq(c * (2 * d0) - n0 * d, d * (2 * d0));
        assert(c * (2 * d0) - n0 * d == d * e) by (nonlinear_arith)
            requires
                n0 == a * d + c * b,
                d0 == b * d,
                e == c * b - a * d,
        ;
        assert((d * e) * (2 * (d * b)) == e * (d * (2 * d0))) by (nonlinear_arith)
            requires
                d0 == b * d,
        ;
        crate::rational::lemma_qeq_trans(qsub(hi, m), qsub(hi, big), (c * (2 * d0) - n0 * d, d * (2 * d0)));
        crate::rational::lemma_qeq_trans(qsub(hi, m), (c * (2 * d0) - n0 * d, d * (2 * d0)), (e, 2 * (d * b)));
        crate::rational::lemma_qeq_trans(qsub(hi, m), (e, 2 * (d * b)), (w.0, 2 * w.1));
    } else {
        assert(bb == (lo, m));
        lemma_qsub_congr(m, big, lo, lo);
        assert((2 * d0) * b > 0) by (nonlinear_arith)
            requires
                b > 0,
                d0 > 0,
        ;
        crate::rational::lemma_reduce_qeq(n0 * b - a * (2 * d0), (2 * d0) * b);
        assert(n0 * b - a * (2 * d0) == b * e) by (nonlinear_arith)
            requires
                n0 == a * d + c * b,
                d0 == b * d,
                e == c * b - a * d,
        ;
        assert((b * e) * (2 * (d * b)) == e * ((2 * d0) * b)) by (nonlinear_arith)
            requires
                d0 == b * d,
        ;
        crate::rational::lemma_qeq_trans(qsub(m, lo), qsub(big, lo), (n0 * b - a * (2 * d0), (2 * d0) * b));
        crate::rational::lemma_qeq_trans(qsub(m, lo), (n0 * b - a * (2 * d0), (2 * d0) * b), (e, 2 * (d * b)));
        crate::rational::lemma_qeq_trans(qsub(m, lo), (e, 2 * (d * b)), (w.0, 2 * w.1));
    }
}

impl RealRoot {
    /// Refine until the bracket is narrower than `width` (or exact). The
    /// width must be positive: no bracket gets narrower than zero.
    #[verifier::spinoff_prover]
    pub fn refine_to_width(&mut self, width: &Rational)
        requires
            qlt(qint(0), width@),
        ensures
            final(self).defining() == old(self).defining(),
            final(self).mult() == old(self).mult(),
            within(bracket(*final(self)), bracket(*old(self))),
            final(self).lower() == final(self).upper() || qlt(width_of(bracket(*final(self))), width@),
    {
        proof {
            use_type_invariant(&*self);
        }
        self.lo.lowest_terms();
        self.hi.lowest_terms();
        width.lowest_terms();
        let ghost w0 = width_of(bracket(*self));
        let ghost mut k: nat = 0;
        let ghost mut big: nat = 0;
        proof {
            crate::rational::lemma_qle_trans(self.lower(), self.lower(), self.lower());
            crate::rational::lemma_qle_trans(self.upper(), self.upper(), self.upper());
            assert(self.upper().1 * self.lower().1 > 0) by (nonlinear_arith)
                requires
                    self.upper().1 > 0,
                    self.lower().1 > 0,
            ;
            crate::rational::lemma_reduce_qeq(
                self.upper().0 * self.lower().1 - self.lower().0 * self.upper().1,
                self.upper().1 * self.lower().1,
            );
            if self.lower() != self.upper() {
                crate::rational::lemma_qle_ne(self.lower(), self.upper());
                crate::rational::lemma_reduce_sign(
                    self.upper().0 * self.lower().1 - self.lower().0 * self.upper().1,
                    self.upper().1 * self.lower().1,
                );
                assert(w0.0 > 0);
                big = (w0.0 * width@.1 + 1) as nat;
            }
            assert(pow2(0) == 1);
            assert(crate::rational::qeq(w0, (w0.0, w0.1 * pow2(0)))) by (nonlinear_arith)
                requires
                    pow2(0) == 1,
            ;
        }
        loop
            invariant
                self.defining() == old(self).defining(),
                self.mult() == old(self).mult(),
                canonical(old(self).lower()),
                canonical(old(self).upper()),
                canonical(width@),
                width@.0 > 0,
                within(bracket(*self), bracket(*old(self))),
                w0.1 > 0,
                k <= big,
                self.lower() != self.upper() ==> w0.0 > 0 && big == w0.0 * width@.1 + 1,
                self.lower() != self.upper() ==> crate::rational::qeq(
                    width_of(bracket(*self)),
                    (w0.0, w0.1 * pow2(k)),
                ),
            ensures
                self.defining() == old(self).defining(),
                self.mult() == old(self).mult(),
                within(bracket(*self), bracket(*old(self))),
                self.lower() == self.upper() || qlt(width_of(bracket(*self)), width@),
            decreases big - k,
        {
            proof {
                use_type_invariant(&*self);
            }
            self.lo.lowest_terms();
            self.hi.lowest_terms();
            if self.is_exact() {
                break;
            }
            let gap = self.hi.sub(&self.lo);
            if gap.lt(width) {
                break;
            }
            let ghost before = bracket(*self);
            proof {
                // the bracket is still at least `width` wide: 2^k <= w0.0 * width.1 < big
                let wn = width_of(before);
                assert(before.1.1 * before.0.1 > 0) by (nonlinear_arith)
                    requires
                        before.1.1 > 0,
                        before.0.1 > 0,
                ;
                crate::rational::lemma_reduce_qeq(
                    before.1.0 * before.0.1 - before.0.0 * before.1.1,
                    before.1.1 * before.0.1,
                );
                lemma_pow2_grows(k);
                assert(w0.1 * pow2(k) > 0) by (nonlinear_arith)
                    requires
                        w0.1 > 0,
                        pow2(k) > k,
                ;
                crate::rational::lemma_qlt_congr(wn, (w0.0, w0.1 * pow2(k)), width@);
                assert(width@.0 * (w0.1 * pow2(k)) <= w0.0 * width@.1);
                assert(pow2(k) <= w0.0 * width@.1) by (nonlinear_arith)
                    requires
                        width@.0 * (w0.1 * pow2(k)) <= w0.0 * width@.1,
                        width@.0 >= 1,
                        w0.1 >= 1,
                ;
                crate::rational::lemma_qle_ne(self.lower(), self.upper());
                lemma_bisect_within(self.defining(), self.lower(), self.upper());
            }
            self.refine();
            self.lo.lowest_terms();
            self.hi.lowest_terms();
            proof {
                crate::rational::lemma_qle_trans(old(self).lower(), before.0, self.lower());
                crate::rational::lemma_qle_trans(self.upper(), before.1, old(self).upper());
                if self.lower() != self.upper() {
                    lemma_bisect_halves(self.defining(), before.0, before.1);
                    let wb = width_of(before);
                    let wn = width_of(bracket(*self));
                    assert(crate::rational::qeq((wb.0, 2 * wb.1), (w0.0, w0.1 * pow2(k + 1)))) by (nonlinear_arith)
                        requires
                            wb.0 * (w0.1 * pow2(k)) == w0.0 * wb.1,
                            pow2(k + 1) == 2 * pow2(k),
                    ;
                    lemma_pow2_grows(k);
                    assert(w0.1 * pow2(k + 1) > 0) by (nonlinear_arith)
                        requires
                            w0.1 > 0,
                            pow2(k + 1) > 0,
                    ;
                    crate::rational::lemma_qeq_trans(wn, (wb.0, 2 * wb.1), (w0.0, w0.1 * pow2(k + 1)));
                }
                k = k + 1;
            }
        }
    }
}

} // verus!
